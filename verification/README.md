# yolite

The core of Yolite, a lightweight YouTube Music desktop client, as a library whose
behaviour is stated in `requires`/`ensures` contracts and proved with Verus.

- `src/` is the verified library: cookie handling and the auth header, video, playlist,
  user and channel ids, the reading of YouTube Music's JSON answers (tracks, playlists,
  shelves, mixes, search results, the account), the page configuration and the API
  request that is built from it, yt-dlp's arguments and output, the stream cache, the
  routing and responses of the local stream server and the phone controller, the Discord
  presence, plugins, and the choice of account for a session.  Public proof functions
  state the laws that hold across these functions.
- `tests/` runs the library on concrete values.
- `app/` is the Tauri application around it: windows, commands, files, processes,
  sockets and HTTP.

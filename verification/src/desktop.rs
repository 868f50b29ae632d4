//! Desktop integration decisions: the Wayland renderer work-around and the
//! global hotkeys.
use vstd::prelude::*;
use crate::text::{chars_of, string_of, trim, trim_window, vec_eq_str, CharClass};

verus! {

/// Whether WebKitGTK's DMA-BUF renderer is to be switched off: on Wayland,
/// unless the user already chose a setting for it.
pub fn configure_linux_windowing(wayland_display_set: bool, dmabuf_renderer_configured: bool) -> (r:
    bool)
    ensures
        r == (wayland_display_set && !dmabuf_renderer_configured),
{
    wayland_display_set && !dmabuf_renderer_configured
}

/// The actions that hotkeys and the phone controller can trigger.
pub open spec fn remote_actions() -> Seq<Seq<char>> {
    seq!["playPause"@, "next"@, "previous"@, "volumeUp"@, "volumeDown"@]
}

/// Whether `action` is one of the remote actions.
pub fn is_remote_action(action: &str) -> (r: bool)
    ensures
        r == remote_actions().contains(action@),
{
    let v = chars_of(action);
    assert(v@.subrange(0, v@.len() as int) =~= v@);
    let r = vec_eq_str(&v, 0, v.len(), "playPause") || vec_eq_str(&v, 0, v.len(), "next")
        || vec_eq_str(&v, 0, v.len(), "previous") || vec_eq_str(&v, 0, v.len(), "volumeUp")
        || vec_eq_str(&v, 0, v.len(), "volumeDown");
    proof {
        let ra = remote_actions();
        if r {
            if action@ == "playPause"@ { assert(ra[0] == action@); }
            if action@ == "next"@ { assert(ra[1] == action@); }
            if action@ == "previous"@ { assert(ra[2] == action@); }
            if action@ == "volumeUp"@ { assert(ra[3] == action@); }
            if action@ == "volumeDown"@ { assert(ra[4] == action@); }
        }
    }
    r
}

/// The shortcut to register for a hotkey setting: the trimmed shortcut, for
/// a remote action and a shortcut that is not blank.
pub fn global_shortcut_binding(action: &str, shortcut: &str) -> (r: Option<String>)
    ensures
        r matches Some(s) ==> remote_actions().contains(action@) && trim(shortcut@).len() > 0 && s@
            == trim(shortcut@),
        r is None ==> !remote_actions().contains(action@) || trim(shortcut@).len() == 0,
{
    if !is_remote_action(action) {
        return None;
    }
    let v = chars_of(shortcut);
    assert(v@.subrange(0, v@.len() as int) =~= v@);
    let (a, b) = trim_window(&v, 0, v.len(), &CharClass::Whitespace);
    if a == b {
        return None;
    }
    Some(string_of(&v, a, b))
}

/// The config file that `YOLITE_CONFIG` names, where it is set to a non-empty value; `None`
/// where the default file under the user's config directory is to be used.
pub fn config_file_override(value: Option<&str>) -> (r: Option<String>)
    ensures
        match value {
            Some(v) => if v@.len() > 0 {
                r matches Some(p) && p@ == v@
            } else {
                r is None
            },
            None => r is None,
        },
{
    match value {
        Some(v) => {
            if v.unicode_len() > 0 {
                Some(v.to_owned())
            } else {
                None
            }
        },
        None => None,
    }
}

} // verus!

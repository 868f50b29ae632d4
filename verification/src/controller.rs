//! The phone controller page and the names of downloaded songs.
use vstd::prelude::*;
use crate::text::{chars_of, hex_lower, lemma_hex_lower_len, replace, replace_window, string_of, to_hex_lower, trim, trim_window, CharClass};

verus! {

/// Whether a character is alphabetic or numeric in Unicode (`char::is_alphanumeric`).
pub uninterp spec fn is_alphanumeric(c: char) -> bool;

/// Calls `char::is_alphanumeric`: the result is `is_alphanumeric(c)`, and for
/// an ASCII character it holds exactly of letters and digits.
#[verifier::external_body]
fn char_is_alphanumeric(c: char) -> (r: bool)
    ensures
        r == is_alphanumeric(c),
        (c as u32) < 128 ==> (r <==> crate::text::is_ascii_alnum(c)),
{
    c.is_alphanumeric()
}

/// `char::is_alphanumeric`: for an ASCII character, an ASCII letter or digit.
pub open spec fn alphanumeric(c: char) -> bool {
    if (c as u32) < 128 {
        crate::text::is_ascii_alnum(c)
    } else {
        is_alphanumeric(c)
    }
}

/// A character that a download name keeps.
pub open spec fn download_name_char(c: char) -> bool {
    alphanumeric(c) || c == ' ' || c == '-' || c == '_' || c == '.'
}

pub open spec fn keep_download_name_char() -> spec_fn(char) -> bool {
    |c: char| download_name_char(c)
}

pub open spec fn spec_safe_download_name(value: Seq<char>) -> Seq<char> {
    let kept = value.filter(keep_download_name_char());
    let name = trim(if kept.len() <= 100 { kept } else { kept.take(100) });
    if name.len() == 0 {
        "yolite-song"@
    } else {
        name
    }
}

/// A file name for a downloaded song: letters, digits, spaces, `-`, `_` and
/// `.` of the title, at most 100 of them, trimmed; `yolite-song` if none is left.
pub fn safe_download_name(value: &str) -> (r: String)
    ensures
        r@ == spec_safe_download_name(value@),
{
    let v = chars_of(value);
    let ghost pred = keep_download_name_char();
    let mut kept: Vec<char> = Vec::new();
    let mut i: usize = 0;
    while i < v.len()
        invariant
            0 <= i <= v.len(),
            v@ == value@,
            pred == keep_download_name_char(),
            kept@ == v@.take(i as int).filter(pred),
        decreases v.len() - i,
    {
        proof {
            reveal_with_fuel(Seq::<_>::filter, 1);
            assert(v@.take(i + 1).drop_last() =~= v@.take(i as int));
        }
        let c = v[i];
        if char_is_alphanumeric(c) || c == ' ' || c == '-' || c == '_' || c == '.' {
            kept.push(c);
        }
        i = i + 1;
    }
    assert(v@.take(v.len() as int) =~= v@);
    let n = if kept.len() <= 100 {
        kept.len()
    } else {
        100
    };
    let (a, b) = trim_window(&kept, 0, n, &CharClass::Whitespace);
    proof {
        if kept@.len() <= 100 {
            assert(kept@.subrange(0, n as int) =~= kept@);
        } else {
            assert(kept@.subrange(0, n as int) =~= kept@.take(100));
        }
    }
    if a == b {
        return "yolite-song".to_string();
    }
    string_of(&kept, a, b)
}

/// The page that the phone controller serves; `__TOKEN__` stands for the token.
pub const CONTROLLER_TEMPLATE: &'static str = r#"<!doctype html>
<html lang="en">
<head>
<meta charset="utf-8"><meta name="viewport" content="width=device-width,initial-scale=1">
<title>YoLite remote</title>
<style>
:root{color-scheme:dark;font-family:system-ui,sans-serif}*{box-sizing:border-box}body{margin:0;min-height:100dvh;display:grid;place-items:center;background:#0b0c0d;color:#f4f1eb;padding:22px}.card{width:min(430px,100%);padding:22px;border:1px solid #ffffff18;border-radius:22px;background:#15171ae8;box-shadow:0 26px 80px #0008}.now{display:grid;grid-template-columns:82px 1fr;gap:16px;align-items:center}.now img{width:82px;height:82px;border-radius:14px;object-fit:cover;background:#24282c}.muted{color:#aaa7a1}.controls{display:grid;grid-template-columns:repeat(3,1fr);gap:10px;margin:22px 0 12px}button,a{min-height:52px;border:0;border-radius:13px;background:#24282c;color:#f4f1eb;font:700 16px inherit;text-decoration:none;display:grid;place-items:center}button.primary{background:#f4f1eb;color:#111315}.secondary{display:grid;grid-template-columns:1fr 1fr;gap:10px}.download{margin-top:10px;background:#d38a64;color:#111315}h1{font-size:17px;margin:0 0 18px}strong{display:block;overflow:hidden;text-overflow:ellipsis;white-space:nowrap;font-size:18px}.muted{overflow:hidden;text-overflow:ellipsis;white-space:nowrap;margin-top:4px}
</style></head>
<body><main class="card"><h1>YoLite remote</h1><section class="now"><img id="art" alt=""><div><strong id="title">Nothing playing</strong><div id="artist" class="muted">Pick a song in YoLite</div></div></section><div class="controls"><button data-action="previous">Previous</button><button class="primary" data-action="playPause">Play / pause</button><button data-action="next">Next</button></div><div class="secondary"><button data-action="volumeDown">Volume down</button><button data-action="volumeUp">Volume up</button></div><a id="download" class="download" hidden>Download song</a></main><script>
pub(crate) const token="__TOKEN__";const title=document.querySelector('#title');const artist=document.querySelector('#artist');const art=document.querySelector('#art');const download=document.querySelector('#download');document.querySelectorAll('[data-action]').forEach(button=>button.onclick=()=>fetch(`/api/control/${token}/${button.dataset.action}`));async function update(){try{const state=await fetch(`/api/state/${token}`).then(response=>response.json());title.textContent=state.track?.title||'Nothing playing';artist.textContent=state.track?.artist||'Pick a song in YoLite';if(state.track?.thumbnail)art.src=state.track.thumbnail;else art.removeAttribute('src');if(state.track?.id){download.hidden=false;download.href=`/download/${token}/${state.track.id}`}else download.hidden=true}catch{}}update();setInterval(update,1500);
</script></body></html>"#;

/// The phone controller page for `token`.
pub fn controller_html(token: &str) -> (r: String)
    ensures
        r@ == replace(CONTROLLER_TEMPLATE@, "__TOKEN__"@, token@),
{
    proof {
        reveal_strlit("__TOKEN__");
    }
    let t = chars_of(CONTROLLER_TEMPLATE);
    let p = chars_of("__TOKEN__");
    let w = chars_of(token);
    assert(t@.subrange(0, t@.len() as int) =~= t@);
    let out = replace_window(&t, 0, t.len(), &p, &w);
    assert(out@.subrange(0, out@.len() as int) =~= out@);
    string_of(&out, 0, out.len())
}

/// Calls `ring::rand::SystemRandom::fill` on `len` zero bytes: on success the
/// bytes, `len` of them; on failure `None`. Which bytes come is left open.
#[verifier::external_body]
fn system_random_bytes(len: usize) -> (r: Option<Vec<u8>>)
    ensures
        r matches Some(b) ==> b@.len() == len,
{
    let mut bytes = vec![0u8; len];
    ring::rand::SecureRandom::fill(&ring::rand::SystemRandom::new(), &mut bytes).ok().map(|_| bytes)
}

pub const CONTROLLER_TOKEN_ERROR: &'static str = "Could not create controller token";

/// A private controller token: 18 random bytes as 36 lower-case hex digits.
pub fn secure_token() -> (r: Result<String, String>)
    ensures
        r matches Ok(t) ==> exists|b: Seq<u8>| b.len() == 18 && t@ == hex_lower(b),
        r matches Ok(t) ==> t@.len() == 36,
        r matches Err(e) ==> e@ == CONTROLLER_TOKEN_ERROR@,
{
    match system_random_bytes(18) {
        Some(bytes) => {
            let t = to_hex_lower(bytes.as_slice());
            proof {
                lemma_hex_lower_len(bytes@);
            }
            Ok(t)
        },
        None => Err(CONTROLLER_TOKEN_ERROR.to_string()),
    }
}

proof fn lemma_trail_len(s: Seq<char>, k: CharClass)
    ensures
        crate::text::trail(s, k) <= s.len(),
    decreases s.len(),
{
    if s.len() > 0 {
        lemma_trail_len(s.drop_last(), k);
    }
}

/// A download name is never empty, holds at most 100 characters, and has no `/` or `?`,
/// so that it cannot name another directory or end a query.
pub proof fn lemma_download_name_is_safe(value: Seq<char>)
    ensures
        0 < spec_safe_download_name(value).len() <= 100,
        !spec_safe_download_name(value).contains('/'),
        !spec_safe_download_name(value).contains('?'),
{
    let pred = keep_download_name_char();
    let kept = value.filter(pred);
    let cut = if kept.len() <= 100 { kept } else { kept.take(100) };
    let name = trim(cut);
    let r = spec_safe_download_name(value);
    reveal_strlit("yolite-song");
    assert forall|i: int| 0 <= i < cut.len() implies pred(#[trigger] cut[i]) by {
        value.lemma_filter_pred(pred, i);
    }
    let lead_n = crate::text::lead(cut, CharClass::Whitespace);
    crate::text::lemma_lead_stops(cut, CharClass::Whitespace);
    let rest = cut.skip(lead_n as int);
    let t = crate::text::trail(rest, CharClass::Whitespace);
    lemma_trail_len(rest, CharClass::Whitespace);
    assert(name == rest.take(rest.len() - t)) by {
        assert(crate::text::trim_end_by(rest, CharClass::Whitespace) =~= rest.take(rest.len() - t));
    }
    assert forall|i: int| 0 <= i < name.len() implies pred(#[trigger] name[i]) by {
        assert(name[i] == rest[i]);
        assert(rest[i] == cut[lead_n + i]);
    }
    if name.len() > 0 {
        assert(r == name);
        if r.contains('/') {
            let i = choose|i: int| 0 <= i < r.len() && r[i] == '/';
            assert(pred(name[i]));
        }
        if r.contains('?') {
            let i = choose|i: int| 0 <= i < r.len() && r[i] == '?';
            assert(pred(name[i]));
        }
    }
}

/// A character that a plain title may hold: an ASCII letter or digit, a space, `-`, `_` or
/// `.`.
pub open spec fn plain_title_char(c: char) -> bool {
    crate::text::is_ascii_alnum(c) || c == ' ' || c == '-' || c == '_' || c == '.'
}

/// A title that is already a good file name is kept as it is: made only of ASCII letters,
/// digits, spaces, `-`, `_` and `.`, neither starting nor ending with a space, and at most
/// 100 characters long, it is its own download name.
pub proof fn lemma_plain_title_kept(value: Seq<char>)
    requires
        0 < value.len() <= 100,
        forall|i: int| 0 <= i < value.len() ==> plain_title_char(#[trigger] value[i]),
        value[0] != ' ',
        value.last() != ' ',
    ensures
        spec_safe_download_name(value) == value,
{
    let pred = keep_download_name_char();
    assert forall|i: int| 0 <= i < value.len() implies pred(#[trigger] value[i]) by {
        assert(plain_title_char(value[i]));
        assert((value[i] as u32) < 128 ==> alphanumeric(value[i]) == crate::text::is_ascii_alnum(value[i]));
    }
    crate::cookie_form::lemma_filter_all(value, pred);
    assert(plain_title_char(value[0]));
    assert(plain_title_char(value[value.len() - 1]));
    assert(crate::cookie_form::tight(value));
    crate::cookie_form::lemma_tight_trim(value);
}

} // verus!

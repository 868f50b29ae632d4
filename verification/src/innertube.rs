//! Reading the client configuration that the YouTube Music page embeds in its HTML.
//!
//! The page calls `ytcfg.set({...})` one or more times; each call's argument is a JSON
//! object written inline in a script.  The scanner works on the UTF-8 bytes of the page:
//! every character that matters to it (`{`, `}`, `"`, `\` and ASCII white space) is a
//! single ASCII byte, and no byte of a multi-byte character is ever ASCII, so scanning
//! bytes finds exactly what scanning characters would.
use vstd::prelude::*;
use vstd::string::*;
use vstd::utf8::*;
use crate::json::{as_str, field, get, get_str, jmerge, jv, jv_entries, jv_list, lemma_jv_entries, merge_json, Json, JsonValue};
use crate::cookies::{current_youtube_auth_header, spec_youtube_auth_header, MUSIC_ORIGIN};
use crate::text::{decimal, trim, trimmed, u64_to_decimal};
use crate::text::push_str;

verus! {

/// The text that precedes each configuration object in the page.
pub const YTCFG_MARKER: &'static str = "ytcfg.set(";

/// ASCII white space as `u8::is_ascii_whitespace` has it.
pub open spec fn is_ascii_ws_byte(c: u8) -> bool {
    c == 0x20 || c == 0x09 || c == 0x0a || c == 0x0c || c == 0x0d
}

/// The first position at or after `i` that does not hold ASCII white space.
pub open spec fn skip_ws(b: Seq<u8>, i: int) -> int
    decreases b.len() - i,
{
    if 0 <= i < b.len() && is_ascii_ws_byte(b[i]) {
        skip_ws(b, i + 1)
    } else {
        i
    }
}

/// The scanner's state: nesting depth, inside a string, after a backslash in a string.
pub type ScanState = (int, bool, bool);

/// How one byte moves the scanner.
pub open spec fn scan_step(st: ScanState, c: u8) -> ScanState {
    let (depth, in_string, escaped) = st;
    if in_string {
        if escaped {
            (depth, true, false)
        } else if c == 0x5c {
            (depth, true, true)
        } else if c == 0x22 {
            (depth, false, false)
        } else {
            st
        }
    } else if c == 0x22 {
        (depth, true, escaped)
    } else if c == 0x7b {
        (depth + 1, false, escaped)
    } else if c == 0x7d {
        (if depth > 0 { depth - 1 } else { 0 }, false, escaped)
    } else {
        st
    }
}

/// The scanner's state after the bytes `b[from..to]`.
pub open spec fn scan_state(b: Seq<u8>, from: int, to: int) -> ScanState
    decreases to - from,
{
    if to <= from {
        (0, false, false)
    } else {
        scan_step(scan_state(b, from, to - 1), b[to - 1])
    }
}

/// The byte at `k` closes the object that starts at `from`: a `}` outside any string that
/// brings the depth back to zero.
pub open spec fn closes_at(b: Seq<u8>, from: int, k: int) -> bool {
    let st = scan_state(b, from, k);
    !st.1 && b[k] == 0x7d && st.0 <= 1
}

/// The first position at or after `k` that closes the object starting at `from`.
pub open spec fn first_close(b: Seq<u8>, from: int, k: int) -> Option<int>
    decreases b.len() - k,
{
    if k < 0 || k >= b.len() {
        None
    } else if closes_at(b, from, k) {
        Some(k)
    } else {
        first_close(b, from, k + 1)
    }
}

/// Where the JSON object after `start` lies: its first byte (past white space), which must
/// be `{`, and the position just after the `}` that closes it.
pub open spec fn object_span(b: Seq<u8>, start: int) -> Option<(int, int)> {
    let i = skip_ws(b, start);
    if 0 <= i < b.len() && b[i] == 0x7b {
        match first_close(b, i, i) {
            Some(k) => Some((i, k + 1)),
            None => None,
        }
    } else {
        None
    }
}

proof fn lemma_skip_ws(b: Seq<u8>, i: int)
    requires
        0 <= i,
    ensures
        i <= skip_ws(b, i),
        skip_ws(b, i) < b.len() ==> !is_ascii_ws_byte(b[skip_ws(b, i)]),
        skip_ws(b, i) > i ==> skip_ws(b, i) <= b.len(),
    decreases b.len() - i,
{
    if 0 <= i < b.len() && is_ascii_ws_byte(b[i]) {
        lemma_skip_ws(b, i + 1);
    }
}

proof fn lemma_first_close(b: Seq<u8>, from: int, k: int)
    requires
        0 <= k,
    ensures
        first_close(b, from, k) matches Some(j) ==> k <= j < b.len() && closes_at(b, from, j),
    decreases b.len() - k,
{
    if k < b.len() && !closes_at(b, from, k) {
        lemma_first_close(b, from, k + 1);
    }
}

/// A position right after an ASCII byte that starts a character starts a character too.
proof fn lemma_boundary_after_ascii(bytes: Seq<u8>, i: int)
    requires
        valid_utf8(bytes),
        0 <= i < bytes.len(),
        is_char_boundary(bytes, i),
        bytes[i] <= 0x7f,
    ensures
        is_char_boundary(bytes, i + 1),
    decreases bytes.len(),
{
    let l = length_of_first_scalar(bytes);
    let t = pop_first_scalar(bytes);
    assert(valid_first_scalar(bytes) && valid_utf8(t));
    assert(1 <= l <= bytes.len());
    assert(t.len() == bytes.len() - l);
    if i == 0 {
        assert(l == 1);
        assert(is_char_boundary(t, 0));
        assert(is_char_boundary(bytes, 1) == is_char_boundary(t, 0));
    } else {
        assert(is_char_boundary(bytes, i) == is_char_boundary(t, i - l));
        if i - l < 0 {
            assert(!is_char_boundary(t, i - l));
        }
        assert(t[i - l] == bytes[i]);
        lemma_boundary_after_ascii(t, i - l);
        assert(is_char_boundary(bytes, i + 1) == is_char_boundary(t, i + 1 - l));
    }
}

/// The JSON object that starts at byte `start` of `source`, after any ASCII white space:
/// its text and the byte position just after it.  `None` where no `{` stands there or the
/// object never closes.  Braces inside strings, and escaped quotes, do not count.
pub fn extract_json_object(source: &str, start: usize) -> (r: Option<(String, usize)>)
    ensures
        match r {
            Some((s, end)) => object_span(source.spec_bytes(), start as int) matches Some((i, e))
                && e == end && encode_utf8(s@) == source.spec_bytes().subrange(i, e),
            None => object_span(source.spec_bytes(), start as int) is None,
        },
{
    let bytes = source.as_bytes();
    let ghost b = source.spec_bytes();
    let n = bytes.len();
    let mut index = start;
    while index < n && (bytes[index] == 0x20 || bytes[index] == 0x09 || bytes[index] == 0x0a
        || bytes[index] == 0x0c || bytes[index] == 0x0d)
        invariant
            b == bytes@,
            n == b.len(),
            start <= index,
            skip_ws(b, start as int) == skip_ws(b, index as int),
        decreases n - index,
    {
        index = index + 1;
    }
    if index >= n || bytes[index] != 0x7b {
        return None;
    }
    assert(skip_ws(b, index as int) == index);
    let mut depth: usize = 0;
    let mut in_string = false;
    let mut escaped = false;
    let mut k = index;
    while k < n
        invariant
            b == bytes@,
            n == b.len(),
            b == source.spec_bytes(),
            skip_ws(b, start as int) == index,
            index < n,
            b[index as int] == 0x7b,
            index <= k <= n,
            depth <= k - index,
            (depth as int, in_string, escaped) == scan_state(b, index as int, k as int),
            first_close(b, index as int, index as int) == first_close(b, index as int, k as int),
        decreases n - k,
    {
        let c = bytes[k];
        assert(scan_state(b, index as int, k + 1) == scan_step(scan_state(b, index as int, k as int), c));
        if in_string {
            if escaped {
                escaped = false;
            } else if c == 0x5c {
                escaped = true;
            } else if c == 0x22 {
                in_string = false;
            }
        } else if c == 0x22 {
            in_string = true;
        } else if c == 0x7b {
            depth = depth + 1;
        } else if c == 0x7d {
            if depth <= 1 {
                assert(closes_at(b, index as int, k as int));
                let end = k + 1;
                proof {
                    encode_utf8_valid_utf8(source@);
                    is_char_boundary_iff_is_leading_byte(b, index as int);
                }
                let (_, rest) = source.split_at(index);
                let ghost rb = rest.spec_bytes();
                proof {
                    valid_utf8_split(b, index as int);
                    assert(rb =~= b.subrange(index as int, n as int));
                    assert(rb[k - index] == 0x7d);
                    is_char_boundary_iff_is_leading_byte(rb, k - index);
                    lemma_boundary_after_ascii(rb, k - index);
                }
                let (obj, _) = rest.split_at(end - index);
                let s = obj.to_owned();
                proof {
                    assert(obj.spec_bytes() =~= b.subrange(index as int, end as int));
                }
                return Some((s, end));
            }
            depth = depth - 1;
        }
        k = k + 1;
    }
    proof {
        lemma_first_close(b, index as int, k as int);
    }
    None
}

/// `p` occurs in `b` at `k`.
pub open spec fn bytes_at(b: Seq<u8>, p: Seq<u8>, k: int) -> bool {
    0 <= k && k + p.len() <= b.len() && b.subrange(k, k + p.len()) == p
}

/// The first position at or after `from` where `p` occurs in `b`.
pub open spec fn find_bytes(b: Seq<u8>, p: Seq<u8>, from: int) -> Option<int>
    decreases b.len() + 1 - from,
{
    if from < 0 || from + p.len() > b.len() {
        None
    } else if bytes_at(b, p, from) {
        Some(from)
    } else {
        find_bytes(b, p, from + 1)
    }
}

proof fn lemma_find_bytes(b: Seq<u8>, p: Seq<u8>, from: int)
    requires
        0 <= from,
    ensures
        find_bytes(b, p, from) matches Some(k) ==> from <= k && bytes_at(b, p, k),
    decreases b.len() + 1 - from,
{
    if from + p.len() <= b.len() && !bytes_at(b, p, from) {
        lemma_find_bytes(b, p, from + 1);
    }
}

/// `find_bytes`, computed.
pub fn find_bytes_from(b: &[u8], p: &[u8], from: usize) -> (r: Option<usize>)
    ensures
        r matches Some(k) ==> find_bytes(b@, p@, from as int) == Some(k as int),
        r is None ==> find_bytes(b@, p@, from as int) is None,
{
    let n = b.len();
    let m = p.len();
    if m > n {
        return None;
    }
    let mut k = from;
    while k <= n - m
        invariant
            n == b@.len(),
            m == p@.len(),
            m <= n,
            from <= k,
            find_bytes(b@, p@, from as int) == find_bytes(b@, p@, k as int),
        decreases n - k,
    {
        let mut j: usize = 0;
        let mut same = true;
        while j < m
            invariant
                n == b@.len(),
                m == p@.len(),
                k + m <= n,
                j <= m,
                same == (forall|t: int| 0 <= t < j ==> b@[k + t] == p@[t]),
            decreases m - j,
        {
            if b[k + j] != p[j] {
                same = false;
            }
            j = j + 1;
        }
        if same {
            assert(b@.subrange(k as int, k + m) =~= p@);
            return Some(k);
        }
        assert(!bytes_at(b@, p@, k as int)) by {
            if b@.subrange(k as int, k + m) == p@ {
                assert forall|t: int| 0 <= t < m implies b@[k + t] == p@[t] by {
                    assert(b@.subrange(k as int, k + m)[t] == b@[k + t]);
                }
            }
        }
        k = k + 1;
    }
    None
}

/// Where the configuration objects of a page lie, from byte `offset` on: each after a
/// `ytcfg.set(`, up to the first marker that is not followed by a complete object.
pub open spec fn ytcfg_spans(b: Seq<u8>, offset: int) -> Seq<(int, int)>
    decreases b.len() - offset,
{
    if offset < 0 || offset > b.len() {
        Seq::empty()
    } else {
        match find_bytes(b, YTCFG_MARKER.spec_bytes(), offset) {
            None => Seq::empty(),
            Some(p) => match object_span(b, p + YTCFG_MARKER.spec_bytes().len()) {
                None => Seq::empty(),
                Some((i, e)) => if offset < e <= b.len() {
                    seq![(i, e)] + ytcfg_spans(b, e)
                } else {
                    Seq::empty()
                },
            },
        }
    }
}

/// The text of each configuration object in the page `html`, in order.  The caller reads
/// each as JSON; later objects override the keys of earlier ones.
pub fn ytcfg_objects(html: &str) -> (r: Vec<String>)
    ensures
        r@.len() == ytcfg_spans(html.spec_bytes(), 0).len(),
        forall|j: int| 0 <= j < r@.len() ==> {
            let (i, e) = #[trigger] ytcfg_spans(html.spec_bytes(), 0)[j];
            encode_utf8(r@[j]@) == html.spec_bytes().subrange(i, e)
        },
{
    let bytes = html.as_bytes();
    let marker = YTCFG_MARKER.as_bytes();
    let ghost b = html.spec_bytes();
    let n = bytes.len();
    let mut out: Vec<String> = Vec::new();
    let ghost mut done: Seq<(int, int)> = Seq::empty();
    let mut offset: usize = 0;
    while offset <= n
        invariant
            b == bytes@,
            b == html.spec_bytes(),
            marker@ == YTCFG_MARKER.spec_bytes(),
            n == b.len(),
            ytcfg_spans(b, 0) == done + ytcfg_spans(b, offset as int),
            out@.len() == done.len(),
            forall|j: int| 0 <= j < out@.len() ==> {
                let (i, e) = #[trigger] done[j];
                encode_utf8(out@[j]@) == b.subrange(i, e)
            },
        ensures
            ytcfg_spans(b, 0) == done,
            out@.len() == done.len(),
            forall|j: int| 0 <= j < out@.len() ==> {
                let (i, e) = #[trigger] done[j];
                encode_utf8(out@[j]@) == b.subrange(i, e)
            },
        decreases n + 1 - offset,
    {
        match find_bytes_from(bytes, marker, offset) {
            None => {
                assert(ytcfg_spans(b, offset as int) =~= Seq::<(int, int)>::empty());
                assert(done + ytcfg_spans(b, offset as int) =~= done);
                break;
            },
            Some(p) => {
                proof {
                    lemma_find_bytes(b, marker@, offset as int);
                }
                let value_start = p + marker.len();
                match extract_json_object(html, value_start) {
                    None => {
                        assert(ytcfg_spans(b, offset as int) =~= Seq::<(int, int)>::empty());
                        assert(done + ytcfg_spans(b, offset as int) =~= done);
                        break;
                    },
                    Some((raw, next)) => {
                        let ghost span = object_span(b, value_start as int)->0;
                        proof {
                            lemma_skip_ws(b, value_start as int);
                            lemma_first_close(b, span.0, span.0);
                            assert(offset < next <= n);
                            assert(ytcfg_spans(b, offset as int) == seq![span] + ytcfg_spans(b, next as int));
                            assert(done + ytcfg_spans(b, offset as int) =~= done.push(span) + ytcfg_spans(b, next as int));
                            done = done.push(span);
                        }
                        out.push(raw);
                        offset = next;
                    },
                }
            },
        }
    }
    out
}

/// The value of `key` in the page configuration: the configuration objects are read in
/// order and a later one overrides an earlier one, so it is the value in the last object that
/// has the key.  A value that is not an object has no keys.
pub open spec fn config_entry(objects: Seq<JsonValue>, key: Seq<char>) -> Option<JsonValue>
    decreases objects.len(),
{
    if objects.len() == 0 {
        None
    } else {
        match field(objects.last(), key) {
            Some(v) => Some(v),
            None => config_entry(objects.drop_last(), key),
        }
    }
}

/// The text of the string value of `key` in the page configuration.
pub open spec fn config_text(objects: Seq<JsonValue>, key: Seq<char>) -> Option<Seq<char>> {
    match config_entry(objects, key) {
        Some(v) => as_str(v),
        None => None,
    }
}

/// The value of `key` in the page configuration.
pub fn config_value<'a>(objects: &'a Vec<JsonValue>, key: &str) -> (r: Option<&'a JsonValue>)
    ensures
        r matches Some(v) ==> config_entry(objects@, key@) == Some(*v),
        r is None ==> config_entry(objects@, key@) is None,
{
    let mut i = objects.len();
    assert(objects@.take(i as int) =~= objects@);
    while i > 0
        invariant
            i <= objects@.len(),
            config_entry(objects@, key@) == config_entry(objects@.take(i as int), key@),
        decreases i,
    {
        let ghost pre = objects@.take(i as int);
        assert(pre.last() == objects@[i - 1]);
        assert(pre.drop_last() =~= objects@.take(i - 1));
        match get(&objects[i - 1], key) {
            Some(v) => {
                return Some(v);
            },
            None => {},
        }
        i = i - 1;
    }
    assert(objects@.take(0) =~= Seq::<JsonValue>::empty());
    None
}

/// The string value of `key` in the page configuration, or `default` where it has none.
pub fn config_text_or(objects: &Vec<JsonValue>, key: &str, default: &str) -> (r: String)
    ensures
        r@ == match config_text(objects@, key@) {
            Some(t) => t,
            None => default@,
        },
{
    let found = match config_value(objects, key) {
        Some(v) => get_str(v),
        None => None,
    };
    match found {
        Some(t) => t.to_owned(),
        None => default.to_owned(),
    }
}

/// The string value of `key` in the page configuration; an error that names the key where
/// it has none.
pub fn config_str(objects: &Vec<JsonValue>, key: &str) -> (r: Result<String, String>)
    ensures
        r matches Ok(t) ==> config_text(objects@, key@) == Some(t@),
        r matches Err(e) ==> config_text(objects@, key@) is None
            && e@ == "missing config key: "@ + key@,
{
    let found = match config_value(objects, key) {
        Some(v) => get_str(v),
        None => None,
    };
    match found {
        Some(t) => Ok(t.to_owned()),
        None => {
            let mut e = "missing config key: ".to_owned();
            push_str(&mut e, key);
            Err(e)
        },
    }
}

/// The configuration keys that a client cannot do without.
pub open spec fn required_config_keys() -> Seq<Seq<char>> {
    seq![
        "INNERTUBE_API_VERSION"@,
        "INNERTUBE_API_KEY"@,
        "INNERTUBE_CLIENT_NAME"@,
        "INNERTUBE_CLIENT_VERSION"@,
    ]
}

/// The first required key, in the order above, that has no string value.
pub open spec fn first_missing_key(objects: Seq<JsonValue>, from: int) -> Option<Seq<char>>
    decreases 4 - from,
{
    if from < 0 || from >= 4 {
        None
    } else if config_text(objects, required_config_keys()[from]) is None {
        Some(required_config_keys()[from])
    } else {
        first_missing_key(objects, from + 1)
    }
}

/// Checks that the page configuration holds each required key as a string; the error names
/// the first that it lacks.
pub fn check_required_config(objects: &Vec<JsonValue>) -> (r: Result<(), String>)
    ensures
        r is Ok <==> first_missing_key(objects@, 0) is None,
        r matches Err(e) ==> first_missing_key(objects@, 0) matches Some(k)
            && e@ == "Could not initialize YouTube Music config: missing "@ + k,
{
    let keys: [&str; 4] = [
        "INNERTUBE_API_VERSION",
        "INNERTUBE_API_KEY",
        "INNERTUBE_CLIENT_NAME",
        "INNERTUBE_CLIENT_VERSION",
    ];
    let mut i: usize = 0;
    while i < 4
        invariant
            i <= 4,
            forall|j: int| 0 <= j < 4 ==> keys@[j]@ == required_config_keys()[j],
            first_missing_key(objects@, 0) == first_missing_key(objects@, i as int),
        decreases 4 - i,
    {
        let found = match config_value(objects, keys[i]) {
            Some(v) => get_str(v),
            None => None,
        };
        if found.is_none() {
            let mut e = "Could not initialize YouTube Music config: missing ".to_owned();
            push_str(&mut e, keys[i]);
            return Err(e);
        }
        i = i + 1;
    }
    Ok(())
}

/// The context that every request to the YouTube Music API carries: the client, and the
/// Brand Account it acts for where a user id is set.
pub open spec fn client_context(name: Seq<char>, version: Seq<char>, gl: Seq<char>, hl: Seq<char>, user_id: Seq<char>) -> Json {
    Json::Object(seq![
        ("context"@, Json::Object(seq![
            ("capabilities"@, Json::Object(Seq::empty())),
            ("client"@, Json::Object(seq![
                ("clientName"@, Json::Str(name)),
                ("clientVersion"@, Json::Str(version)),
                ("gl"@, Json::Str(gl)),
                ("hl"@, Json::Str(hl)),
            ])),
            ("request"@, Json::Object(seq![
                ("internalExperimentFlags"@, Json::Array(Seq::empty())),
                ("sessionIndex"@, Json::Object(Seq::empty())),
            ])),
            ("user"@, Json::Object(seq![("enableSafetyMode"@, Json::Bool(false))] + if trim(user_id).len() > 0 {
                seq![("onBehalfOfUser"@, Json::Str(trim(user_id)))]
            } else {
                Seq::empty()
            })),
        ])),
    ])
}

fn entry(k: &str, v: JsonValue) -> (r: (String, JsonValue))
    ensures
        r.0@ == k@,
        r.1 == v,
{
    (k.to_owned(), v)
}

fn object2(a: (String, JsonValue), b: (String, JsonValue)) -> (r: JsonValue)
    ensures
        jv(r) == Json::Object(seq![(a.0@, jv(a.1)), (b.0@, jv(b.1))]),
{
    let v = vec![a, b];
    let r = JsonValue::Object(v);
    proof {
        lemma_jv_entries(v@);
        assert(jv_entries(v@) =~= seq![(a.0@, jv(a.1)), (b.0@, jv(b.1))]);
    }
    r
}

/// `client_context`, built.
pub fn request_context(name: &str, version: &str, gl: &str, hl: &str, user_id: &str) -> (r: JsonValue)
    ensures
        jv(r) == client_context(name@, version@, gl@, hl@, user_id@),
{
    let capabilities = JsonValue::Object(Vec::new());
    assert(jv(capabilities) == Json::Object(Seq::empty())) by {
        assert(jv_entries(Seq::<(String, JsonValue)>::empty()) =~= Seq::<(Seq<char>, Json)>::empty());
    }
    let client_entries = vec![
        entry("clientName", JsonValue::Str(name.to_owned())),
        entry("clientVersion", JsonValue::Str(version.to_owned())),
        entry("gl", JsonValue::Str(gl.to_owned())),
        entry("hl", JsonValue::Str(hl.to_owned())),
    ];
    let ghost ce = client_entries@;
    let client = JsonValue::Object(client_entries);
    proof {
        lemma_jv_entries(ce);
        assert(jv_entries(ce) =~= seq![
            ("clientName"@, Json::Str(name@)),
            ("clientVersion"@, Json::Str(version@)),
            ("gl"@, Json::Str(gl@)),
            ("hl"@, Json::Str(hl@)),
        ]);
    }
    let flags = JsonValue::Array(Vec::new());
    assert(jv(flags) == Json::Array(Seq::empty())) by {
        assert(jv_list(Seq::<JsonValue>::empty()) =~= Seq::<Json>::empty());
    }
    let session_index = JsonValue::Object(Vec::new());
    assert(jv(session_index) == Json::Object(Seq::empty())) by {
        assert(jv_entries(Seq::<(String, JsonValue)>::empty()) =~= Seq::<(Seq<char>, Json)>::empty());
    }
    let request = object2(entry("internalExperimentFlags", flags), entry("sessionIndex", session_index));
    let mut user_entries = vec![entry("enableSafetyMode", JsonValue::Bool(false))];
    let u = trimmed(user_id);
    if u.as_str().unicode_len() > 0 {
        user_entries.push(entry("onBehalfOfUser", JsonValue::Str(u)));
    }
    let ghost ue = user_entries@;
    let user = JsonValue::Object(user_entries);
    proof {
        lemma_jv_entries(ue);
        assert(jv_entries(ue) =~= seq![("enableSafetyMode"@, Json::Bool(false))] + if trim(user_id@).len() > 0 {
            seq![("onBehalfOfUser"@, Json::Str(trim(user_id@)))]
        } else {
            Seq::empty()
        });
    }
    let context_entries = vec![
        entry("capabilities", capabilities),
        entry("client", client),
        entry("request", request),
        entry("user", user),
    ];
    let ghost xe = context_entries@;
    let context = JsonValue::Object(context_entries);
    proof {
        lemma_jv_entries(xe);
        assert(jv_entries(xe) =~= client_context(name@, version@, gl@, hl@, user_id@)->Object_0[0].1->Object_0);
    }
    let r = JsonValue::Object(vec![entry("context", context)]);
    proof {
        let v = seq![("context"@, jv(context))];
        lemma_jv_entries(r->Object_0@);
        assert(jv_entries(r->Object_0@) =~= v);
    }
    r
}

/// The headers of a request to the YouTube Music API.  `auth` is the `Authorization` header
/// for the cookies, where there is one.
pub open spec fn request_headers(
    name: Seq<char>,
    version: Seq<char>,
    visitor: Seq<char>,
    cookies: Seq<char>,
    auth: Option<Seq<char>>,
    auth_user: u8,
) -> Seq<(Seq<char>, Seq<char>)> {
    seq![
        ("Origin"@, MUSIC_ORIGIN@),
        ("Referer"@, MUSIC_ORIGIN@ + "/"@),
        ("x-origin"@, MUSIC_ORIGIN@),
        ("X-Goog-Visitor-Id"@, visitor),
        ("X-YouTube-Client-Name"@, name),
        ("X-YouTube-Client-Version"@, version),
        ("X-YouTube-Utc-Offset"@, "0"@),
        ("X-YouTube-Time-Zone"@, "UTC"@),
    ] + if cookies.len() > 0 {
        seq![("cookie"@, cookies)] + match auth {
            Some(a) => seq![("authorization"@, a), ("X-Goog-AuthUser"@, decimal(auth_user as nat))],
            None => Seq::empty(),
        }
    } else {
        Seq::empty()
    }
}

/// A request to the YouTube Music API, ready to send: the address without its query, the
/// API key for the query, the JSON body, and the headers.
pub struct InnertubeRequest {
    pub url: String,
    pub api_key: String,
    pub body: JsonValue,
    pub headers: Vec<(String, String)>,
}

pub open spec fn header_views(h: Seq<(String, String)>) -> Seq<(Seq<char>, Seq<char>)> {
    h.map_values(|p: (String, String)| (p.0@, p.1@))
}

/// The first of the four required keys that has no string value, in the order in which a
/// request reads them.
pub open spec fn request_missing_key(config: Seq<JsonValue>) -> Option<Seq<char>> {
    first_missing_key(config, 0)
}

fn push_header(h: &mut Vec<(String, String)>, name: &str, value: &str)
    ensures
        header_views(final(h)@) == header_views(old(h)@).push((name@, value@)),
{
    let ghost before = h@;
    h.push((name.to_owned(), value.to_owned()));
    assert(header_views(h@) =~= header_views(before).push((name@, value@)));
}

/// `q` is the request to `endpoint` with the body `body`, for the page configuration
/// `config`, the Brand Account `user_id`, and the cookies with their `Authorization` header
/// `auth` for account number `auth_user`.
pub open spec fn prepared_request(
    config: Seq<JsonValue>,
    endpoint: Seq<char>,
    user_id: Seq<char>,
    cookies: Seq<char>,
    auth: Option<Seq<char>>,
    auth_user: u8,
    body: Json,
    q: InnertubeRequest,
) -> bool {
    let version = config_text(config, "INNERTUBE_API_VERSION"@)->0;
    let key = config_text(config, "INNERTUBE_API_KEY"@)->0;
    let name = config_text(config, "INNERTUBE_CLIENT_NAME"@)->0;
    let cv = config_text(config, "INNERTUBE_CLIENT_VERSION"@)->0;
    let gl = match config_text(config, "GL"@) { Some(t) => t, None => "US"@ };
    let hl = match config_text(config, "HL"@) { Some(t) => t, None => "en"@ };
    let visitor = match config_text(config, "VISITOR_DATA"@) { Some(t) => t, None => Seq::empty() };
    &&& q.url@ == "https://music.youtube.com/youtubei/"@ + version + "/"@ + endpoint
    &&& q.api_key@ == key
    &&& jv(q.body) == jmerge(client_context(name, cv, gl, hl, user_id), body)
    &&& header_views(q.headers@) == request_headers(name, cv, visitor, cookies, auth, auth_user)
}

/// The request to `endpoint` with `body`, for the page configuration `config`, the
/// Brand Account `user_id`, and the cookies with their `Authorization` header `auth` for
/// account number `auth_user`.  An error names the first required configuration key that is
/// missing.
pub fn innertube_request_with(
    config: &Vec<JsonValue>,
    endpoint: &str,
    user_id: &str,
    cookies: &str,
    auth: Option<String>,
    auth_user: u8,
    body: JsonValue,
) -> (r: Result<InnertubeRequest, String>)
    ensures
        r matches Err(e) ==> request_missing_key(config@) matches Some(k) && e@ == "missing config key: "@ + k,
        r is Ok ==> request_missing_key(config@) is None,
        r matches Ok(q) ==> prepared_request(
            config@,
            endpoint@,
            user_id@,
            cookies@,
            match auth {
                Some(a) => Some(a@),
                None => None,
            },
            auth_user,
            jv(body),
            q,
        ),
{
    proof {
        reveal_with_fuel(first_missing_key, 5);
    }
    let version = match config_str(config, "INNERTUBE_API_VERSION") {
        Ok(t) => t,
        Err(e) => {
            return Err(e);
        },
    };
    let key = match config_str(config, "INNERTUBE_API_KEY") {
        Ok(t) => t,
        Err(e) => {
            return Err(e);
        },
    };
    let name = match config_str(config, "INNERTUBE_CLIENT_NAME") {
        Ok(t) => t,
        Err(e) => {
            return Err(e);
        },
    };
    let cv = match config_str(config, "INNERTUBE_CLIENT_VERSION") {
        Ok(t) => t,
        Err(e) => {
            return Err(e);
        },
    };
    let gl = config_text_or(config, "GL", "US");
    let hl = config_text_or(config, "HL", "en");
    let visitor = config_text_or(config, "VISITOR_DATA", "");
    proof {
        reveal_strlit("");
        assert(""@ =~= Seq::<char>::empty());
    }
    assert(visitor@ == match config_text(config@, "VISITOR_DATA"@) { Some(t) => t, None => Seq::<char>::empty() });
    let mut url = "https://music.youtube.com/youtubei/".to_owned();
    push_str(&mut url, version.as_str());
    push_str(&mut url, "/");
    push_str(&mut url, endpoint);
    let context = request_context(name.as_str(), cv.as_str(), gl.as_str(), hl.as_str(), user_id);
    let merged = merge_json(context, body);
    let mut headers: Vec<(String, String)> = Vec::new();
    assert(header_views(headers@) =~= Seq::<(Seq<char>, Seq<char>)>::empty());
    let mut referer = MUSIC_ORIGIN.to_owned();
    push_str(&mut referer, "/");
    push_header(&mut headers, "Origin", MUSIC_ORIGIN);
    push_header(&mut headers, "Referer", referer.as_str());
    push_header(&mut headers, "x-origin", MUSIC_ORIGIN);
    push_header(&mut headers, "X-Goog-Visitor-Id", visitor.as_str());
    push_header(&mut headers, "X-YouTube-Client-Name", name.as_str());
    push_header(&mut headers, "X-YouTube-Client-Version", cv.as_str());
    push_header(&mut headers, "X-YouTube-Utc-Offset", "0");
    push_header(&mut headers, "X-YouTube-Time-Zone", "UTC");
    let ghost fixed = header_views(headers@);
    assert(fixed =~= seq![
        ("Origin"@, MUSIC_ORIGIN@),
        ("Referer"@, MUSIC_ORIGIN@ + "/"@),
        ("x-origin"@, MUSIC_ORIGIN@),
        ("X-Goog-Visitor-Id"@, visitor@),
        ("X-YouTube-Client-Name"@, name@),
        ("X-YouTube-Client-Version"@, cv@),
        ("X-YouTube-Utc-Offset"@, "0"@),
        ("X-YouTube-Time-Zone"@, "UTC"@),
    ]);
    if cookies.unicode_len() > 0 {
        push_header(&mut headers, "cookie", cookies);
        match &auth {
            Some(a) => {
                push_header(&mut headers, "authorization", a.as_str());
                let n = u64_to_decimal(auth_user as u64);
                push_header(&mut headers, "X-Goog-AuthUser", n.as_str());
            },
            None => {},
        }
    }
    proof {
        let c = if cookies@.len() > 0 {
            seq![("cookie"@, cookies@)] + match auth {
                Some(a) => seq![("authorization"@, a@), ("X-Goog-AuthUser"@, decimal(auth_user as nat))],
                None => Seq::<(Seq<char>, Seq<char>)>::empty(),
            }
        } else {
            Seq::<(Seq<char>, Seq<char>)>::empty()
        };
        assert(header_views(headers@) =~= fixed + c);
    }
    Ok(InnertubeRequest { url, api_key: key, body: merged, headers })
}

/// The request to `endpoint` with `body` for the session: as `innertube_request_with`, with
/// the cookies and, where they hold a `SAPISID`, the `Authorization` and `X-Goog-AuthUser`
/// headers, the hash made at the time of one reading of the clock.
pub fn innertube_request(
    config: &Vec<JsonValue>,
    endpoint: &str,
    user_id: &str,
    cookies: &str,
    auth_user: u8,
    body: JsonValue,
) -> (r: Result<InnertubeRequest, String>)
    requires
        cookies@.len() < 0x0100_0000_0000_0000,
    ensures
        r matches Err(e) ==> request_missing_key(config@) matches Some(k) && e@ == "missing config key: "@ + k,
        r is Ok ==> request_missing_key(config@) is None,
        r matches Ok(q) ==> exists|t: std::time::SystemTime| prepared_request(
            config@,
            endpoint@,
            user_id@,
            cookies@,
            if cookies@.len() > 0 {
                crate::cookies::auth_header_at(cookies@, #[trigger] crate::clock::clock_secs(t))
            } else {
                None
            },
            auth_user,
            jv(body),
            q,
        ),
{
    let ghost b = jv(body);
    let ghost mut t: std::time::SystemTime;
    let auth = if cookies.unicode_len() > 0 {
        let h = current_youtube_auth_header(cookies);
        proof {
            t = choose|t: std::time::SystemTime|
                crate::models::opt_view(h) == crate::cookies::auth_header_at(cookies@, #[trigger] crate::clock::clock_secs(t));
        }
        h
    } else {
        None
    };
    let ghost a = crate::models::opt_view(auth);
    let r = innertube_request_with(config, endpoint, user_id, cookies, auth, auth_user, body);
    proof {
        if r is Ok {
            assert(prepared_request(config@, endpoint@, user_id@, cookies@, a, auth_user, b, r->Ok_0));
            assert(a == (if cookies@.len() > 0 {
                crate::cookies::auth_header_at(cookies@, crate::clock::clock_secs(t))
            } else {
                None
            }));
        }
    }
    r
}

/// What `extract_json_object` finds is a braced object: it starts, past the white space
/// after `start`, with `{`, ends with the `}` that brings the depth back to zero outside any
/// string, and no earlier byte closes it.
pub proof fn lemma_object_span_is_braced(b: Seq<u8>, start: int)
    requires
        0 <= start,
    ensures
        object_span(b, start) matches Some((i, e)) ==> {
            &&& start <= i < e <= b.len()
            &&& b[i] == 0x7b
            &&& b[e - 1] == 0x7d
            &&& closes_at(b, i, e - 1)
            &&& forall|k: int| i <= k < e - 1 ==> !closes_at(b, i, k)
        },
{
    lemma_skip_ws(b, start);
    let i = skip_ws(b, start);
    if 0 <= i < b.len() && b[i] == 0x7b {
        lemma_first_close(b, i, i);
        lemma_first_close_is_first(b, i, i);
    }
}

proof fn lemma_first_close_is_first(b: Seq<u8>, from: int, k: int)
    requires
        0 <= k,
    ensures
        first_close(b, from, k) matches Some(j) ==> forall|m: int| k <= m < j ==> !closes_at(b, from, m),
    decreases b.len() - k,
{
    if k < b.len() && !closes_at(b, from, k) {
        lemma_first_close_is_first(b, from, k + 1);
    }
}

} // verus!

//! Plugins: the manifests read from the plugin directories, and the list that the app shows.
use vstd::prelude::*;
use crate::cookies::{lemma_views_push, views};
use crate::ids::{lemma_lex_asymmetric, lemma_lex_transitive, lex_lt, lex_lt_exec};
use crate::text::{chars_of, lowercase, select, string_of, take_at_most, to_lowercase, trim, trim_window, CharClass};

verus! {

/// The version of a plugin whose manifest names none.
pub fn default_plugin_version() -> (r: String)
    ensures
        r@ == "1.0.0"@,
{
    "1.0.0".to_owned()
}

/// What a plugin's `plugin.json` says.
pub struct PluginManifest {
    pub name: String,
    pub version: String,
    pub description: String,
    pub discover_categories: Vec<String>,
}

/// A plugin as the app shows it.
pub struct PluginPayload {
    pub id: String,
    pub name: String,
    pub version: String,
    pub description: String,
    pub css: String,
    pub discover_categories: Vec<String>,
}

/// The text of a plugin.
pub ghost struct Plugin {
    pub id: Seq<char>,
    pub name: Seq<char>,
    pub version: Seq<char>,
    pub description: Seq<char>,
    pub css: Seq<char>,
    pub discover_categories: Seq<Seq<char>>,
}

impl View for PluginPayload {
    type V = Plugin;

    open spec fn view(&self) -> Plugin {
        Plugin {
            id: self.id@,
            name: self.name@,
            version: self.version@,
            description: self.description@,
            css: self.css@,
            discover_categories: views(self.discover_categories@),
        }
    }
}

/// The most characters of a plugin's style sheet.
pub const PLUGIN_CSS_CHARS: usize = 256 * 1024;
/// The most characters of a category, and the most categories.
pub const PLUGIN_CATEGORY_CHARS: usize = 60;
pub const PLUGIN_CATEGORIES: usize = 32;

/// The discover categories of a plugin: each trimmed and cut to 60 characters, the blank
/// ones left out, at most 32.
pub open spec fn plugin_categories(cs: Seq<Seq<char>>) -> Seq<Seq<char>> {
    take_at_most(
        select(
            cs.map_values(|c: Seq<char>| take_at_most(trim(c), PLUGIN_CATEGORY_CHARS as nat)),
            |i: int| trim(cs[i]).len() > 0,
            cs.len() as int,
        ),
        PLUGIN_CATEGORIES as nat,
    )
}

/// The plugin in the directory `dir_name` (`plugin` where its name cannot be read), with
/// the manifest `m` and the style sheet `css`.
pub open spec fn spec_plugin_payload(dir_name: Option<Seq<char>>, name: Seq<char>, version: Seq<char>, description: Seq<char>, categories: Seq<Seq<char>>, css: Seq<char>) -> Plugin {
    Plugin {
        id: match dir_name {
            Some(d) => d,
            None => "plugin"@,
        },
        name: if trim(name).len() == 0 { "Unnamed plugin"@ } else { name },
        version,
        description,
        css: take_at_most(css, PLUGIN_CSS_CHARS as nat),
        discover_categories: plugin_categories(categories),
    }
}

/// The first `n` characters of `s`, or all of it where it is shorter.
fn prefix_chars(s: &str, n: usize) -> (r: String)
    ensures
        r@ == take_at_most(s@, n as nat),
{
    let v = chars_of(s);
    let end = if v.len() > n { n } else { v.len() };
    assert(v@.subrange(0, end as int) =~= take_at_most(s@, n as nat));
    string_of(&v, 0, end)
}

/// The plugin as the app shows it.
pub fn plugin_payload(dir_name: Option<&str>, manifest: PluginManifest, css: &str) -> (r: PluginPayload)
    ensures
        r@ == spec_plugin_payload(
            match dir_name {
                Some(d) => Some(d@),
                None => None,
            },
            manifest.name@,
            manifest.version@,
            manifest.description@,
            views(manifest.discover_categories@),
            css@,
        ),
{
    let id = match dir_name {
        Some(d) => d.to_owned(),
        None => "plugin".to_owned(),
    };
    let nv = chars_of(manifest.name.as_str());
    let (na, nb) = trim_window(&nv, 0, nv.len(), &CharClass::Whitespace);
    assert(nv@.subrange(0, nv@.len() as int) =~= nv@);
    let name = if na == nb { "Unnamed plugin".to_owned() } else { manifest.name };
    let cs = &manifest.discover_categories;
    let ghost cv = views(cs@);
    let ghost trimmed_cut = cv.map_values(|c: Seq<char>| take_at_most(trim(c), PLUGIN_CATEGORY_CHARS as nat));
    let ghost keep = |i: int| trim(cv[i]).len() > 0;
    let mut categories: Vec<String> = Vec::new();
    let mut i: usize = 0;
    while i < cs.len()
        invariant
            i <= cs@.len(),
            cv == views(cs@),
            trimmed_cut == cv.map_values(|c: Seq<char>| take_at_most(trim(c), PLUGIN_CATEGORY_CHARS as nat)),
            keep == (|i: int| trim(cv[i]).len() > 0),
            views(categories@) == select(trimmed_cut, keep, i as int),
        decreases cs@.len() - i,
    {
        let v = chars_of(cs[i].as_str());
        assert(cv[i as int] == cs@[i as int]@);
        let (a, b) = trim_window(&v, 0, v.len(), &CharClass::Whitespace);
        assert(v@.subrange(0, v@.len() as int) =~= v@);
        if a < b {
            let end = if b - a > PLUGIN_CATEGORY_CHARS { a + PLUGIN_CATEGORY_CHARS } else { b };
            let c = string_of(&v, a, end);
            assert(c@ =~= take_at_most(trim(cv[i as int]), PLUGIN_CATEGORY_CHARS as nat));
            proof {
                lemma_views_push(categories@, c);
            }
            categories.push(c);
        }
        i = i + 1;
    }
    categories.truncate(PLUGIN_CATEGORIES);
    assert(views(categories@) =~= plugin_categories(cv));
    PluginPayload {
        id,
        name,
        version: manifest.version,
        description: manifest.description,
        css: prefix_chars(css, PLUGIN_CSS_CHARS),
        discover_categories: categories,
    }
}

/// The first position in `sorted` whose name, in lower case, comes after `key`.
pub open spec fn insert_position(keys: Seq<Seq<char>>, key: Seq<char>, from: int) -> int
    decreases keys.len() - from,
{
    if from < 0 || from >= keys.len() {
        keys.len() as int
    } else if lex_lt(key, keys[from]) {
        from
    } else {
        insert_position(keys, key, from + 1)
    }
}

pub open spec fn name_keys(ps: Seq<Plugin>) -> Seq<Seq<char>> {
    ps.map_values(|p: Plugin| lowercase(p.name))
}

/// `x` put into `sorted` after every plugin whose name does not come after its own.
pub open spec fn insert_by_name(sorted: Seq<Plugin>, x: Plugin) -> Seq<Plugin> {
    sorted.insert(insert_position(name_keys(sorted), lowercase(x.name), 0), x)
}

/// The plugins in the order of their names compared in lower case; plugins whose names
/// compare equal keep their order.
pub open spec fn sort_by_name(ps: Seq<Plugin>) -> Seq<Plugin>
    decreases ps.len(),
{
    if ps.len() == 0 {
        Seq::empty()
    } else {
        insert_by_name(sort_by_name(ps.drop_last()), ps.last())
    }
}

pub open spec fn plugin_views(ps: Seq<PluginPayload>) -> Seq<Plugin> {
    ps.map_values(|p: PluginPayload| p@)
}

/// The plugins sorted by name, compared in lower case; equal names keep their order.
pub fn sort_plugins(plugins: Vec<PluginPayload>) -> (r: Vec<PluginPayload>)
    ensures
        plugin_views(r@) == sort_by_name(plugin_views(plugins@)),
{
    let ghost ps = plugin_views(plugins@);
    let mut out: Vec<PluginPayload> = Vec::new();
    let mut keys: Vec<Vec<char>> = Vec::new();
    let mut n: usize = 0;
    let total = plugins.len();
    for p in it: plugins
        invariant
            ps.len() == total,
            ps == plugin_views(it.seq()),
            n == it.index(),
            n <= ps.len(),
            plugin_views(out@) == sort_by_name(ps.take(n as int)),
            keys@.len() == out@.len(),
            forall|j: int| 0 <= j < keys@.len() ==> keys@[j]@ == lowercase(out@[j].name@),
    {
        assert(ps[n as int] == p@);
        let kv = to_lowercase(p.name.as_str());
        let key = chars_of(kv.as_str());
        let ghost ks = name_keys(plugin_views(out@));
        assert forall|j: int| 0 <= j < keys@.len() implies keys@[j]@ == ks[j] by {}
        let mut i: usize = 0;
        while i < keys.len() && !lex_lt_exec(&key, &keys[i])
            invariant
                i <= keys@.len(),
                ks.len() == keys@.len(),
                forall|j: int| 0 <= j < keys@.len() ==> keys@[j]@ == ks[j],
                insert_position(ks, key@, 0) == insert_position(ks, key@, i as int),
            decreases keys@.len() - i,
        {
            i = i + 1;
        }
        proof {
            if i < keys@.len() {
                assert(lex_lt(key@, ks[i as int]));
            }
            assert(insert_position(ks, key@, i as int) == i);
            let before = plugin_views(out@);
            assert(ps.take(n + 1).drop_last() =~= ps.take(n as int));
            assert(ps.take(n + 1).last() == p@);
            assert(before.insert(i as int, p@) == insert_by_name(before, p@));
        }
        let ghost old_out = out@;
        let ghost old_keys = keys@;
        out.insert(i, p);
        keys.insert(i, key);
        proof {
            assert(plugin_views(out@) =~= plugin_views(old_out).insert(i as int, out@[i as int]@));
            assert forall|j: int| 0 <= j < keys@.len() implies keys@[j]@ == lowercase(out@[j].name@) by {
                if j < i {
                    assert(keys@[j] == old_keys[j] && out@[j] == old_out[j]);
                } else if j > i {
                    assert(keys@[j] == old_keys[j - 1] && out@[j] == old_out[j - 1]);
                }
            }
        }
        n = n + 1;
    }
    proof {
        assert(ps.take(n as int) =~= ps);
    }
    out
}

/// No name comes, in lower case, before an earlier one.
pub open spec fn sorted_by_name(ps: Seq<Plugin>) -> bool {
    forall|i: int, j: int| 0 <= i < j < ps.len() ==> !lex_lt(lowercase(#[trigger] ps[j].name), lowercase(#[trigger] ps[i].name))
}

proof fn lemma_insert_position(keys: Seq<Seq<char>>, key: Seq<char>, from: int)
    requires
        0 <= from <= keys.len(),
    ensures
        from <= insert_position(keys, key, from) <= keys.len(),
        forall|m: int| from <= m < insert_position(keys, key, from) ==> !lex_lt(key, #[trigger] keys[m]),
        insert_position(keys, key, from) < keys.len() ==> lex_lt(key, keys[insert_position(keys, key, from)]),
    decreases keys.len() - from,
{
    if from < keys.len() && !lex_lt(key, keys[from]) {
        lemma_insert_position(keys, key, from + 1);
    }
}

/// Sorting the plugins by name gives them in the order of their names in lower case, and
/// gives each plugin once: the same plugins, as many times each.
pub proof fn lemma_sort_by_name(ps: Seq<Plugin>)
    ensures
        sorted_by_name(sort_by_name(ps)),
        sort_by_name(ps).to_multiset() == ps.to_multiset(),
    decreases ps.len(),
{
    broadcast use vstd::seq_lib::group_to_multiset_ensures;
    if ps.len() > 0 {
        let prev = sort_by_name(ps.drop_last());
        lemma_sort_by_name(ps.drop_last());
        let x = ps.last();
        let ks = name_keys(prev);
        let kx = lowercase(x.name);
        lemma_insert_position(ks, kx, 0);
        let p = insert_position(ks, kx, 0);
        let r = prev.insert(p, x);
        assert(r == sort_by_name(ps));
        assert(ps.drop_last().push(x) =~= ps);
        assert forall|i: int, j: int| 0 <= i < j < r.len() implies !lex_lt(lowercase(#[trigger] r[j].name), lowercase(#[trigger] r[i].name)) by {
            if j < p {
                assert(r[i] == prev[i] && r[j] == prev[j]);
            } else if j == p {
                assert(r[j] == x && r[i] == prev[i]);
                assert(ks[i] == lowercase(prev[i].name));
            } else if i > p {
                assert(r[i] == prev[i - 1] && r[j] == prev[j - 1]);
            } else if i == p {
                assert(r[i] == x && r[j] == prev[j - 1]);
                assert(ks[p] == lowercase(prev[p].name));
                assert(ks[j - 1] == lowercase(prev[j - 1].name));
                if lex_lt(ks[j - 1], kx) {
                    if j - 1 == p {
                        lemma_lex_asymmetric(kx, ks[p]);
                    } else {
                        lemma_lex_transitive(ks[j - 1], kx, ks[p]);
                        assert(!lex_lt(lowercase(prev[j - 1].name), lowercase(prev[p].name)));
                    }
                }
            } else {
                assert(r[i] == prev[i] && r[j] == prev[j - 1]);
            }
        }
    }
}

} // verus!

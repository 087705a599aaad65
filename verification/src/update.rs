//! The update check (npm installs) and the agent-skill freshness warning.
//!
//! Reading the cache file, asking the registry and reading the installed
//! skill files happen around this module; here is what is decided from what
//! they gave back.
use vstd::prelude::*;
use crate::paths::{home_display, join, parent_path, path_join, path_parent, path_strip_prefix, stripped_path};
use crate::setup::{first_version, skill_version, version_less, version_less_than};
use crate::text::{chars_of, lines, push_str, string_of, str_is};

verus! {

/// How long a registry answer stays good, in seconds (six hours).
pub const UPDATE_CACHE_TTL_SECS: u64 = 21600;

/// The install source that takes part in update checks.
pub const NPM_INSTALL_SOURCE: &'static str = "npm";

/// The npm package users install.
pub const NPM_PACKAGE_NAME: &'static str = "hitch-cli";

/// The skill version this build ships.
pub const SKILL_VERSION: &'static str = "1";

/// What the last registry check found, as kept in the update cache file.
pub struct UpdateCache {
    pub checked_at: u64,
    pub install_source: String,
    pub latest_version: Option<String>,
}

impl UpdateCache {
    pub fn new(checked_at: u64, install_source: String, latest_version: Option<String>) -> (r: Self)
        ensures
            r.checked_at == checked_at,
            r.install_source == install_source,
            r.latest_version == latest_version,
    {
        UpdateCache { checked_at, install_source, latest_version }
    }
}

/// A check made at `checked_at` is still good at `now`.
pub open spec fn cache_fresh(checked_at: u64, now: u64) -> bool {
    checked_at <= now && now - checked_at < UPDATE_CACHE_TTL_SECS
}

/// Whether the cached answer is younger than the time to live.
pub fn update_cache_fresh(cache: &UpdateCache, now: u64) -> (r: bool)
    ensures
        r == cache_fresh(cache.checked_at, now),
{
    cache.checked_at <= now && now - cache.checked_at < UPDATE_CACHE_TTL_SECS
}

/// The cache must be refreshed: there is none, it was made for another
/// install source, or it is too old.
pub open spec fn cache_stale(install_source: Seq<char>, cache: Option<&UpdateCache>, now: u64) -> bool {
    match cache {
        None => true,
        Some(c) => c.install_source@ != install_source || !cache_fresh(c.checked_at, now),
    }
}

/// Whether the update cache needs a new registry check.
pub fn update_cache_stale(install_source: &str, cache: Option<&UpdateCache>, now: u64) -> (r: bool)
    ensures
        r == cache_stale(install_source@, cache, now),
{
    match cache {
        None => true,
        Some(c) => !str_is(c.install_source.as_str(), install_source) || !update_cache_fresh(
            c,
            now,
        ),
    }
}

/// A background refresh is started only for npm installs with a stale cache.
pub fn update_refresh_needed(install_source: &str, cache: Option<&UpdateCache>, now: u64) -> (r:
    bool)
    ensures
        r == (install_source@ == NPM_INSTALL_SOURCE@ && cache_stale(install_source@, cache, now)),
{
    str_is(install_source, NPM_INSTALL_SOURCE) && update_cache_stale(install_source, cache, now)
}

/// "update available {current} -> {latest}, run `npm install -g hitch-cli`"
pub open spec fn update_message(current: Seq<char>, latest: Seq<char>) -> Seq<char> {
    "update available "@ + current + " -> "@ + latest + ", run `npm install -g "@
        + NPM_PACKAGE_NAME@ + "`"@
}

/// The warning shown when a newer release is known.
pub open spec fn update_notice(
    install_source: Seq<char>,
    current: Seq<char>,
    cache: Option<&UpdateCache>,
    now: u64,
) -> Option<Seq<char>> {
    if install_source != NPM_INSTALL_SOURCE@ {
        None
    } else {
        match cache {
            None => None,
            Some(c) => if c.install_source@ != install_source || !cache_fresh(c.checked_at, now) {
                None
            } else {
                match c.latest_version {
                    None => None,
                    Some(latest) => if version_less(current, latest@) {
                        Some(update_message(current, latest@))
                    } else {
                        None
                    },
                }
            },
        }
    }
}

/// The update warning for a build of `current_version` installed from
/// `install_source`, given the cache (if it could be read) and the time.
pub fn update_warning(
    install_source: &str,
    current_version: &str,
    cache: Option<&UpdateCache>,
    now: u64,
) -> (r: Option<String>)
    ensures
        r matches Some(s) ==> update_notice(install_source@, current_version@, cache, now) == Some(
            s@,
        ),
        r is None ==> update_notice(install_source@, current_version@, cache, now) is None,
{
    if !str_is(install_source, NPM_INSTALL_SOURCE) {
        return None;
    }
    let c = match cache {
        None => {
            return None;
        },
        Some(c) => c,
    };
    if !str_is(c.install_source.as_str(), install_source) {
        return None;
    }
    if !update_cache_fresh(c, now) {
        return None;
    }
    let latest = match &c.latest_version {
        None => {
            return None;
        },
        Some(l) => l,
    };
    if version_less_than(current_version, latest.as_str()) {
        let mut out: Vec<char> = Vec::new();
        push_str(&mut out, "update available ");
        push_str(&mut out, current_version);
        push_str(&mut out, " -> ");
        push_str(&mut out, latest.as_str());
        push_str(&mut out, ", run `npm install -g ");
        push_str(&mut out, NPM_PACKAGE_NAME);
        push_str(&mut out, "`");
        Some(string_of(out.as_slice()))
    } else {
        None
    }
}

// ---------------------------------------------------------------------------
// The registry answer
// ---------------------------------------------------------------------------

/// The dist-tag a build follows: prereleases (a `-` in the version) follow
/// `beta`, the others `latest`.
pub open spec fn dist_tag(version: Seq<char>) -> Seq<char> {
    if version.contains('-') {
        "beta"@
    } else {
        "latest"@
    }
}

/// The dist-tag to read from the registry for this build's version.
pub fn npm_dist_tag(version: &str) -> (r: &'static str)
    ensures
        r@ == dist_tag(version@),
{
    let v = chars_of(version);
    let mut i: usize = 0;
    while i < v.len()
        invariant
            v@ == version@,
            i <= v@.len(),
            forall|j: int| 0 <= j < i ==> v@[j] != '-',
        decreases v@.len() - i,
    {
        if v[i] == '-' {
            proof {
                reveal_strlit("beta");
            }
            return "beta";
        }
        i = i + 1;
    }
    proof {
        reveal_strlit("latest");
    }
    "latest"
}

/// The version to report from the registry's dist-tags: the wanted tag
/// when the registry has it (a value that is not a string gives `None`),
/// else the `latest` tag. Each argument is `None` when the tag is absent
/// and `Some(None)` when its value is not a string.
pub fn select_dist_tag(wanted: Option<Option<String>>, latest: Option<Option<String>>) -> (r:
    Option<String>)
    ensures
        r == (match wanted {
            Some(v) => v,
            None => match latest {
                Some(v) => v,
                None => None,
            },
        }),
{
    match wanted {
        Some(v) => v,
        None => match latest {
            Some(v) => v,
            None => None,
        },
    }
}

/// What `serde_json` reads from the text `raw`, looked up at `outer` and then
/// `inner`: `None` when `raw` is not JSON; `Some(None)` when either key is
/// missing (or the value there is not an object); `Some(Some(None))` when
/// the value found is not a string; `Some(Some(Some(s)))` for a string `s`.
pub uninterp spec fn json_nested_str(raw: Seq<char>, outer: Seq<char>, inner: Seq<char>) -> Option<
    Option<Option<Seq<char>>>,
>;

pub open spec fn nested_view(r: Option<Option<Option<String>>>) -> Option<Option<Option<Seq<char>>>> {
    match r {
        None => None,
        Some(None) => Some(None),
        Some(Some(None)) => Some(Some(None)),
        Some(Some(Some(s))) => Some(Some(Some(s@))),
    }
}

/// `serde_json::from_str::<serde_json::Value>`, then `Value::get` for
/// `outer` and for `inner`, then `Value::as_str`. The contract names the
/// result: the JSON grammar and the lookup rules are not spelled out here.
#[verifier::external_body]
fn json_nested_str_value(raw: &str, outer: &str, inner: &str) -> (r: Option<Option<Option<String>>>)
    ensures
        nested_view(r) == json_nested_str(raw@, outer@, inner@),
{
    serde_json::from_str::<serde_json::Value>(raw).ok().map(|v| {
        v.get(outer).and_then(|t| t.get(inner)).map(|x| x.as_str().map(|s| s.to_string()))
    })
}

/// The key of the registry document that holds the dist-tags.
pub const DIST_TAGS_KEY: &'static str = "dist-tags";

pub open spec fn tag_entry(raw: Seq<char>, tag: Seq<char>) -> Option<Option<Seq<char>>> {
    match json_nested_str(raw, DIST_TAGS_KEY@, tag) {
        Some(e) => e,
        None => None,
    }
}

/// The version the registry document `raw` gives for a build at `version`:
/// nothing when it is not JSON; else the build's dist-tag when present (its
/// value when a string, else nothing), else the `latest` tag's string value.
pub open spec fn registry_version(raw: Seq<char>, version: Seq<char>) -> Option<Seq<char>> {
    match json_nested_str(raw, DIST_TAGS_KEY@, dist_tag(version)) {
        None => None,
        Some(Some(v)) => v,
        Some(None) => match tag_entry(raw, "latest"@) {
            Some(v) => v,
            None => None,
        },
    }
}

/// The latest version that the npm registry's answer `raw` names for this
/// build's version.
pub fn registry_latest_version(raw: &str, version: &str) -> (r: Option<String>)
    ensures
        r matches Some(s) ==> registry_version(raw@, version@) == Some(s@),
        r is None ==> registry_version(raw@, version@) is None,
{
    let tag = npm_dist_tag(version);
    let wanted = match json_nested_str_value(raw, DIST_TAGS_KEY, tag) {
        None => return None,
        Some(w) => w,
    };
    let latest = match json_nested_str_value(raw, DIST_TAGS_KEY, "latest") {
        Some(e) => e,
        None => None,
    };
    select_dist_tag(wanted, latest)
}

// ---------------------------------------------------------------------------
// Installed agent skills
// ---------------------------------------------------------------------------

pub const AGENTS_SKILL_FILE: &'static str = ".agents/skills/hitch/SKILL.md";

/// Where installed skills are looked for: under the working directory, then
/// under the home directory, when each is known.
pub open spec fn skill_paths(cwd: Option<Seq<char>>, home: Option<Seq<char>>) -> Seq<Seq<char>> {
    let here = match cwd {
        Some(c) => seq![join(c, AGENTS_SKILL_FILE@)],
        None => seq![],
    };
    let there = match home {
        Some(h) => seq![join(h, AGENTS_SKILL_FILE@)],
        None => seq![],
    };
    here + there
}

pub open spec fn opt_view(s: Option<&str>) -> Option<Seq<char>> {
    match s {
        Some(v) => Some(v@),
        None => None,
    }
}

/// The skill files to check, in order.
pub fn installed_skill_paths(cwd: Option<&str>, home: Option<&str>) -> (r: Vec<String>)
    ensures
        r@.len() == skill_paths(opt_view(cwd), opt_view(home)).len(),
        forall|i: int| 0 <= i < r@.len() ==> #[trigger] r@[i]@ == skill_paths(opt_view(cwd), opt_view(home))[i],
{
    let mut paths: Vec<String> = Vec::new();
    if let Some(c) = cwd {
        paths.push(path_join(c, AGENTS_SKILL_FILE));
    }
    let ghost mid = paths@;
    if let Some(h) = home {
        paths.push(path_join(h, AGENTS_SKILL_FILE));
    }
    proof {
        let want = skill_paths(opt_view(cwd), opt_view(home));
        assert forall|i: int| 0 <= i < paths@.len() implies #[trigger] paths@[i]@ == want[i] by {
            if cwd is Some {
                if i >= 1 {
                    assert(home is Some);
                }
            } else {
                assert(home is Some);
            }
        }
    }
    paths
}

/// The skill's root directory: two levels above its `SKILL.md`, or the path
/// itself when it has no such ancestor.
pub open spec fn skill_root(path: Seq<char>) -> Seq<char> {
    match parent_path(path) {
        Some(p) => match parent_path(p) {
            Some(q) => q,
            None => path,
        },
        None => path,
    }
}

/// How a skill root is shown: relative to the working directory as `.` or
/// `./rest`, else under the home directory as `~` or `~/rest`, else as is.
pub open spec fn shown_root(root: Seq<char>, cwd: Option<Seq<char>>, home: Option<Seq<char>>) -> Seq<char> {
    let under_home = match home {
        Some(h) => home_display(root, stripped_path(root, h)),
        None => root,
    };
    match cwd {
        Some(c) => match stripped_path(root, c) {
            Some(rel) => if rel.len() == 0 {
                seq!['.']
            } else {
                seq!['.', '/'] + rel
            },
            None => under_home,
        },
        None => under_home,
    }
}

/// The skill root of `path` as shown in the outdated-skill warning.
pub fn format_skill_root(path: &str, cwd: Option<&str>, home: Option<&str>) -> (r: String)
    ensures
        r@ == shown_root(skill_root(path@), opt_view(cwd), opt_view(home)),
{
    let root: String = match path_parent(path) {
        Some(p) => match path_parent(p.as_str()) {
            Some(q) => q,
            None => string_of(chars_of(path).as_slice()),
        },
        None => string_of(chars_of(path).as_slice()),
    };
    if let Some(c) = cwd {
        if let Some(rel) = path_strip_prefix(root.as_str(), c) {
            let rc = chars_of(rel.as_str());
            let mut out: Vec<char> = Vec::new();
            out.push('.');
            if rc.len() > 0 {
                out.push('/');
                crate::text::push_all(&mut out, rc.as_slice());
            }
            return string_of(out.as_slice());
        }
    }
    match home {
        Some(h) => {
            let stripped = path_strip_prefix(root.as_str(), h);
            match stripped {
                None => crate::paths::display_under_home(root.as_str(), None),
                Some(s) => crate::paths::display_under_home(root.as_str(), Some(s.as_str())),
            }
        },
        None => string_of(chars_of(root.as_str()).as_slice()),
    }
}

/// A skill file found on disk: its path and, when it could be read, what
/// it holds.
pub struct SkillFile {
    pub path: String,
    pub contents: Option<String>,
}

/// "agent skill in \"{root}\" is outdated, run `hitch setup` to update"
pub open spec fn skill_message(root: Seq<char>) -> Seq<char> {
    "agent skill in \""@ + root + "\" is outdated, run `hitch setup` to update"@
}

/// Whether a skill file declares a version older than the shipped one.
pub open spec fn skill_outdated(contents: Option<String>) -> bool {
    match contents {
        None => false,
        Some(raw) => match first_version(lines(raw@)) {
            None => false,
            Some(v) => version_less(v, SKILL_VERSION@),
        },
    }
}

/// The warning for the first outdated skill file from index `k` on.
pub open spec fn outdated_from(
    files: Seq<SkillFile>,
    cwd: Option<Seq<char>>,
    home: Option<Seq<char>>,
    k: int,
) -> Option<Seq<char>>
    decreases files.len() - k,
{
    if k < 0 || k >= files.len() {
        None
    } else if skill_outdated(files[k].contents) {
        Some(skill_message(shown_root(skill_root(files[k].path@), cwd, home)))
    } else {
        outdated_from(files, cwd, home, k + 1)
    }
}

/// The warning for the first installed skill whose declared version is
/// older than the shipped one; unreadable files and files without a version
/// are passed over.
pub fn outdated_skill_warning(files: &Vec<SkillFile>, cwd: Option<&str>, home: Option<&str>) -> (r:
    Option<String>)
    ensures
        r matches Some(s) ==> outdated_from(files@, opt_view(cwd), opt_view(home), 0) == Some(s@),
        r is None ==> outdated_from(files@, opt_view(cwd), opt_view(home), 0) is None,
{
    let mut i: usize = 0;
    while i < files.len()
        invariant
            i <= files@.len(),
            outdated_from(files@, opt_view(cwd), opt_view(home), 0) == outdated_from(
                files@,
                opt_view(cwd),
                opt_view(home),
                i as int,
            ),
        decreases files@.len() - i,
    {
        let f = &files[i];
        if let Some(raw) = &f.contents {
            if let Some(installed) = skill_version(raw.as_str()) {
                if version_less_than(installed.as_str(), SKILL_VERSION) {
                    let root = format_skill_root(f.path.as_str(), cwd, home);
                    let mut out: Vec<char> = Vec::new();
                    push_str(&mut out, "agent skill in \"");
                    push_str(&mut out, root.as_str());
                    push_str(&mut out, "\" is outdated, run `hitch setup` to update");
                    return Some(string_of(out.as_slice()));
                }
            }
        }
        i = i + 1;
    }
    None
}

} // verus!

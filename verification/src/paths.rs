//! Locations of the live configuration files of the managed applications.
//!
//! A path is modelled as its list of components: the home or override
//! directory supplied by the caller, followed by the components appended with
//! `Path::join`. Collecting the list into a `PathBuf` joins them in order.
use vstd::prelude::*;
use crate::text::{str_chars, trim_bounds, trim, chars_slice, to_owned_string, starts_with, starts_with_exec};

verus! {

pub open spec fn views(v: Seq<String>) -> Seq<Seq<char>> {
    v.map_values(|s: String| s@)
}

fn copy_components(v: &Vec<String>) -> (r: Vec<String>)
    ensures
        views(r@) == views(v@),
{
    let mut out: Vec<String> = Vec::new();
    let mut i: usize = 0;
    while i < v.len()
        invariant
            i <= v@.len(),
            views(out@) == views(v@).take(i as int),
        decreases v.len() - i,
    {
        let ghost prev = out@;
        let c = v[i].clone();
        out.push(c);
        assert(out@ =~= prev.push(c));
        assert(views(out@) =~= views(prev).push(v@[i as int]@));
        assert(views(out@) =~= views(v@).take(i + 1));
        i = i + 1;
    }
    assert(views(v@).take(v@.len() as int) =~= views(v@));
    out
}

/// `base` joined with the given components.
pub fn join_components(base: &Vec<String>, parts: &[&str]) -> (r: Vec<String>)
    ensures
        views(r@) == views(base@) + parts@.map_values(|p: &str| p@),
{
    let mut out = copy_components(base);
    let mut i: usize = 0;
    while i < parts.len()
        invariant
            i <= parts@.len(),
            views(out@) == views(base@) + parts@.map_values(|p: &str| p@).take(i as int),
        decreases parts.len() - i,
    {
        let ghost prev = out@;
        let c = to_owned_string(parts[i]);
        out.push(c);
        assert(out@ =~= prev.push(c));
        assert(views(out@) =~= views(prev).push(parts@[i as int]@));
        assert(views(out@) =~= views(base@) + parts@.map_values(|p: &str| p@).take(i + 1));
        i = i + 1;
    }
    assert(parts@.map_values(|p: &str| p@).take(parts@.len() as int) =~= parts@.map_values(|p: &str| p@));
    out
}

/// Where a DSH home setting points, relative to the user's home directory.
pub open spec fn spec_expand_home(raw: Seq<char>, home: Seq<Seq<char>>) -> Seq<Seq<char>> {
    if raw == "~"@ {
        home
    } else if starts_with(raw, "~/"@) || starts_with(raw, "~\\"@) {
        home.push(raw.skip(2))
    } else {
        seq![raw]
    }
}

/// Expands `~`, `~/rest` and `~\rest` against the home directory; any other
/// value is taken as the path itself.
pub fn expand_home(raw: &str, home: &Vec<String>) -> (r: Vec<String>)
    ensures
        views(r@) == spec_expand_home(raw@, views(home@)),
{
    let v = str_chars(raw);
    proof {
        reveal_strlit("~");
        reveal_strlit("~/");
        reveal_strlit("~\\");
    }
    if v.len() == 1 && v[0] == '~' {
        assert(raw@ =~= "~"@);
        return copy_components(home);
    }
    assert(raw@ != "~"@) by {
        if raw@ == "~"@ {
            assert(v@.len() == 1 && v@[0] == '~');
        }
    }
    if v.len() >= 2 && v[0] == '~' && (v[1] == '/' || v[1] == '\\') {
        assert(starts_with(raw@, "~/"@) || starts_with(raw@, "~\\"@)) by {
            if v@[1] == '/' {
                assert(raw@.take(2) =~= "~/"@);
            } else {
                assert(raw@.take(2) =~= "~\\"@);
            }
        }
        let mut out = copy_components(home);
        out.push(chars_slice(&v, 2, v.len()));
        assert(views(out@) =~= views(home@).push(raw@.skip(2)));
        return out;
    }
    assert(!(starts_with(raw@, "~/"@) || starts_with(raw@, "~\\"@))) by {
        if starts_with(raw@, "~/"@) {
            assert(raw@.take(2)[0] == '~' && raw@.take(2)[1] == '/');
        }
        if starts_with(raw@, "~\\"@) {
            assert(raw@.take(2)[0] == '~' && raw@.take(2)[1] == '\\');
        }
    }
    let mut out: Vec<String> = Vec::new();
    out.push(to_owned_string(raw));
    assert(views(out@) =~= seq![raw@]);
    out
}

/// DSH home without the settings override: a non-blank `DSH_HOME` (trimmed,
/// then `~`-expanded) or `~/.dsh`.
pub open spec fn spec_default_dsh_home(env: Option<Seq<char>>, home: Seq<Seq<char>>) -> Seq<Seq<char>> {
    match env {
        Some(raw) => if trim(raw).len() > 0 {
            spec_expand_home(trim(raw), home)
        } else {
            home.push(".dsh"@)
        },
        None => home.push(".dsh"@),
    }
}

/// DSH home without consulting the settings override (`dsh_home_env` is the
/// value of `DSH_HOME`, if set).
pub fn get_default_home(dsh_home_env: Option<&str>, home: &Vec<String>) -> (r: Vec<String>)
    ensures
        views(r@) == spec_default_dsh_home(crate::route_prefix::opt_str_view(dsh_home_env), views(home@)),
{
    match dsh_home_env {
        Some(raw) => {
            let v = str_chars(raw);
            let (a, b) = trim_bounds(&v, 0, v.len());
            assert(v@.subrange(0, v@.len() as int) =~= v@);
            if a < b {
                let t = chars_slice(&v, a, b);
                expand_home(t.as_str(), home)
            } else {
                join_components(home, &[".dsh"])
            }
        },
        None => join_components(home, &[".dsh"]),
    }
}

/// DSH home: the settings override when present, otherwise `get_default_home`.
pub fn get_home(override_dir: Option<&Vec<String>>, dsh_home_env: Option<&str>, home: &Vec<String>) -> (r: Vec<String>)
    ensures
        views(r@) == match override_dir {
            Some(d) => views(d@),
            None => spec_default_dsh_home(crate::route_prefix::opt_str_view(dsh_home_env), views(home@)),
        },
{
    match override_dir {
        Some(d) => copy_components(d),
        None => get_default_home(dsh_home_env, home),
    }
}

/// `<dsh home>/profiles/web/cordis.patch.yml`.
pub fn get_dsh_mcp_config_path(dsh_home: &Vec<String>) -> (r: Vec<String>)
    ensures
        views(r@) == views(dsh_home@) + seq!["profiles"@, "web"@, "cordis.patch.yml"@],
{
    let r = join_components(dsh_home, &["profiles", "web", "cordis.patch.yml"]);
    r
}

/// `<dsh home>/profiles/<profile>/cordis.patch.yml`.
pub fn get_dsh_profile_config_path(dsh_home: &Vec<String>, profile: &str) -> (r: Vec<String>)
    ensures
        views(r@) == views(dsh_home@) + seq!["profiles"@, profile@, "cordis.patch.yml"@],
{
    let parts: [&str; 3] = ["profiles", profile, "cordis.patch.yml"];
    let r = join_components(dsh_home, &parts);
    assert(parts@.map_values(|p: &str| p@) =~= seq!["profiles"@, profile@, "cordis.patch.yml"@]);
    r
}

/// The patch files of both DSH profiles, web first: the web client reads
/// `profiles/web`, the desktop client `profiles/desktop`.
pub fn get_dsh_mcp_config_paths(dsh_home: &Vec<String>) -> (r: Vec<Vec<String>>)
    ensures
        r@.len() == 2,
        views(r@[0]@) == views(dsh_home@) + seq!["profiles"@, "web"@, "cordis.patch.yml"@],
        views(r@[1]@) == views(dsh_home@) + seq!["profiles"@, "desktop"@, "cordis.patch.yml"@],
{
    let mut r: Vec<Vec<String>> = Vec::new();
    r.push(get_dsh_profile_config_path(dsh_home, "web"));
    r.push(get_dsh_profile_config_path(dsh_home, "desktop"));
    r
}

/// `<dsh home>/mcp.json` (legacy location, only read for the one-time migration).
pub fn legacy_mcp_json_path(dsh_home: &Vec<String>) -> (r: Vec<String>)
    ensures
        views(r@) == views(dsh_home@).push("mcp.json"@),
{
    join_components(dsh_home, &["mcp.json"])
}

/// `~/.workbuddy`.
pub fn get_workbuddy_dir(home: &Vec<String>) -> (r: Vec<String>)
    ensures
        views(r@) == views(home@).push(".workbuddy"@),
{
    join_components(home, &[".workbuddy"])
}

/// `~/.workbuddy/mcp.json`.
pub fn get_mcp_config_path(home: &Vec<String>) -> (r: Vec<String>)
    ensures
        views(r@) == views(home@) + seq![".workbuddy"@, "mcp.json"@],
{
    join_components(home, &[".workbuddy", "mcp.json"])
}

/// ZCode root: the override when present, otherwise `~/.zcode`.
pub fn get_zcode_dir(override_dir: Option<&Vec<String>>, home: &Vec<String>) -> (r: Vec<String>)
    ensures
        views(r@) == match override_dir {
            Some(d) => views(d@),
            None => views(home@).push(".zcode"@),
        },
{
    match override_dir {
        Some(d) => copy_components(d),
        None => join_components(home, &[".zcode"]),
    }
}

/// `<zcode dir>/cli/config.json`.
pub fn get_zcode_cli_config_path(zcode_dir: &Vec<String>) -> (r: Vec<String>)
    ensures
        views(r@) == views(zcode_dir@) + seq!["cli"@, "config.json"@],
{
    join_components(zcode_dir, &["cli", "config.json"])
}

/// `<zcode dir>/cli/db/db.sqlite`.
pub fn get_zcode_db_path(zcode_dir: &Vec<String>) -> (r: Vec<String>)
    ensures
        views(r@) == views(zcode_dir@) + seq!["cli"@, "db"@, "db.sqlite"@],
{
    join_components(zcode_dir, &["cli", "db", "db.sqlite"])
}

/// `<log dir>/api_logs`.
pub fn api_log_dir(log_dir: &Vec<String>) -> (r: Vec<String>)
    ensures
        views(r@) == views(log_dir@).push("api_logs"@),
{
    join_components(log_dir, &["api_logs"])
}

} // verus!

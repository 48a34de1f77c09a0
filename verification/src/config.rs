//! Configuration: a user file and a project file, merged field by field.
use crate::text::{chars_of, string_of};
use crate::web_preview::url_rewriting::{join_path, unix_join};
use vstd::prelude::*;

verus! {

/// Name of the project-local config file.
pub const PROJECT_CONFIG_FILENAME: &'static str = ".acli.toml";

/// The contents of a config file; every field is optional.
#[derive(Debug, Clone, PartialEq)]
pub struct ConfigFile {
    /// Target Anki deck name.
    pub deck: Option<String>,
    /// Path to the Anki collection database.
    pub collection: Option<String>,
    /// Path to Anki's `collection.media` directory.
    pub media_dir: Option<String>,
    /// Whether to recurse into subdirectories.
    pub recursive: Option<bool>,
}

impl Default for ConfigFile {
    fn default() -> (r: ConfigFile)
        ensures
            r.deck is None && r.collection is None && r.media_dir is None && r.recursive is None,
    {
        ConfigFile { deck: None, collection: None, media_dir: None, recursive: None }
    }
}

/// Directory of the user-level config inside the config home.
pub const USER_CONFIG_DIR: &'static str = "acli";

/// File name of the user-level config.
pub const USER_CONFIG_FILENAME: &'static str = "config.toml";

/// The merged configuration and the files it came from.
pub struct ResolvedConfig {
    pub config: ConfigFile,
    pub user_path: Option<String>,
    pub project_path: Option<String>,
}

/// The value of an optional string.
pub open spec fn opt_view(o: Option<String>) -> Option<Seq<char>> {
    match o {
        Some(s) => Some(s@),
        None => None,
    }
}

/// The project value if there is one, else the user value.
pub open spec fn prefer<T>(project: Option<T>, user: Option<T>) -> Option<T> {
    match project {
        Some(v) => Some(v),
        None => user,
    }
}

fn copy_opt(o: &Option<String>) -> (r: Option<String>)
    ensures
        opt_view(r) == opt_view(*o),
{
    match o {
        Some(s) => Some(s.clone()),
        None => None,
    }
}

/// Merges two configs: for each field the project value wins, the user
/// value fills the gap.
pub fn merge_configs(user: &ConfigFile, project: &ConfigFile) -> (r: ConfigFile)
    ensures
        opt_view(r.deck) == prefer(opt_view(project.deck), opt_view(user.deck)),
        opt_view(r.collection) == prefer(opt_view(project.collection), opt_view(user.collection)),
        opt_view(r.media_dir) == prefer(opt_view(project.media_dir), opt_view(user.media_dir)),
        r.recursive == prefer(project.recursive, user.recursive),
{
    ConfigFile {
        deck: if project.deck.is_some() { copy_opt(&project.deck) } else { copy_opt(&user.deck) },
        collection: if project.collection.is_some() {
            copy_opt(&project.collection)
        } else {
            copy_opt(&user.collection)
        },
        media_dir: if project.media_dir.is_some() {
            copy_opt(&project.media_dir)
        } else {
            copy_opt(&user.media_dir)
        },
        recursive: match project.recursive {
            Some(b) => Some(b),
            None => user.recursive,
        },
    }
}

/// Starter content for a project-level `.acli.toml`.
pub fn project_starter_config() -> (r: &'static str)
    ensures
        r@ == "# acli project configuration\n# Docs: https://github.com/ethan-seal/acli\n\n# Target Anki deck name.\ndeck = \"My Flashcards\"\n\n# Recurse into subdirectories (default: true).\n# recursive = true\n"@,
{
    "# acli project configuration\n# Docs: https://github.com/ethan-seal/acli\n\n# Target Anki deck name.\ndeck = \"My Flashcards\"\n\n# Recurse into subdirectories (default: true).\n# recursive = true\n"
}

/// Starter content for the user-level `config.toml`.
pub fn user_starter_config() -> (r: &'static str)
    ensures
        r@ == "# acli user configuration\n# Docs: https://github.com/ethan-seal/acli\n#\n# Machine-specific settings shared across all projects.\n# Project-level .acli.toml overrides values set here.\n\n# Path to Anki collection database.\n# collection = \"/home/user/.local/share/Anki2/User 1/collection.anki2\"\n\n# Path to Anki's collection.media directory.\n# Required for syncing images referenced in cards.\n# media_dir = \"/home/user/.local/share/Anki2/User 1/collection.media\"\n"@,
{
    "# acli user configuration\n# Docs: https://github.com/ethan-seal/acli\n#\n# Machine-specific settings shared across all projects.\n# Project-level .acli.toml overrides values set here.\n\n# Path to Anki collection database.\n# collection = \"/home/user/.local/share/Anki2/User 1/collection.anki2\"\n\n# Path to Anki's collection.media directory.\n# Required for syncing images referenced in cards.\n# media_dir = \"/home/user/.local/share/Anki2/User 1/collection.media\"\n"
}

/// The config home: `$XDG_CONFIG_HOME` if set, else `$HOME/.config`, else
/// `.config`.
pub open spec fn config_home(xdg: Option<Seq<char>>, home: Option<Seq<char>>) -> Seq<char> {
    match xdg {
        Some(x) => x,
        None => match home {
            Some(h) => unix_join(h, ".config"@),
            None => ".config"@,
        },
    }
}

/// Where the user-level config file is, given the values of
/// `XDG_CONFIG_HOME` and `HOME`: `acli/config.toml` in the config home.
pub fn user_config_path_in(xdg_config_home: Option<&str>, home: Option<&str>) -> (r: String)
    ensures
        r@ == unix_join(
            unix_join(
                config_home(
                    match xdg_config_home {
                        Some(x) => Some(x@),
                        None => None,
                    },
                    match home {
                        Some(h) => Some(h@),
                        None => None,
                    },
                ),
                USER_CONFIG_DIR@,
            ),
            USER_CONFIG_FILENAME@,
        ),
{
    let base = match xdg_config_home {
        Some(x) => string_of(&chars_of(x)),
        None => match home {
            Some(h) => join_path(h, ".config"),
            None => string_of(&chars_of(".config")),
        },
    };
    let dir = join_path(base.as_str(), USER_CONFIG_DIR);
    join_path(dir.as_str(), USER_CONFIG_FILENAME)
}

/// The parent that `Path::parent` gives a path.
pub uninterp spec fn parent_of(p: Seq<char>) -> Option<Seq<char>>;

/// `Path::new(p).parent()` as text: the path without its final component
/// (shorter than the path), none for a root or the empty path.
#[verifier::external_body]
fn path_parent(p: &str) -> (r: Option<String>)
    ensures
        match r {
            Some(q) => parent_of(p@) == Some(q@) && q@.len() < p@.len(),
            None => parent_of(p@) is None,
        },
{
    std::path::Path::new(p).parent().map(|q| q.to_string_lossy().into_owned())
}

/// Whether `paths` lists the project config file in each directory from
/// `dirs[0]` up through its parents, ending at a path without a parent.
pub open spec fn search_path_of(paths: Seq<Seq<char>>, dirs: Seq<Seq<char>>, start: Seq<char>) -> bool {
    &&& dirs.len() == paths.len()
    &&& dirs.len() > 0
    &&& dirs[0] == start
    &&& forall|i: int| 0 <= i < paths.len() ==> #[trigger] paths[i] == unix_join(dirs[i], PROJECT_CONFIG_FILENAME@)
    &&& forall|i: int| 0 <= i < dirs.len() - 1 ==> parent_of(#[trigger] dirs[i]) == Some(dirs[i + 1])
    &&& parent_of(dirs.last()) is None
}

/// The places a project config file is looked for, nearest first: the
/// start directory, then each parent up to the root.
pub fn project_config_candidates(start_dir: &str) -> (r: Vec<String>)
    ensures
        exists|dirs: Seq<Seq<char>>| search_path_of(r.deep_view(), dirs, start_dir@),
{
    let mut out: Vec<String> = Vec::new();
    let mut dir = string_of(&chars_of(start_dir));
    let ghost mut dirs: Seq<Seq<char>> = seq![];
    let mut more = true;
    while more
        invariant
            dirs.len() == out.len(),
            out.len() == 0 ==> dir@ == start_dir@,
            out.len() > 0 ==> dirs[0] == start_dir@,
            forall|i: int| 0 <= i < out.len() ==> #[trigger] out.deep_view()[i] == unix_join(dirs[i], PROJECT_CONFIG_FILENAME@),
            forall|i: int| 0 <= i < dirs.len() - 1 ==> parent_of(#[trigger] dirs[i]) == Some(dirs[i + 1]),
            more && dirs.len() > 0 ==> parent_of(dirs.last()) == Some(dir@),
            !more ==> dirs.len() > 0 && parent_of(dirs.last()) is None,
        decreases (if more { dir@.len() + 1 } else { 0 }),
    {
        let candidate = join_path(dir.as_str(), PROJECT_CONFIG_FILENAME);
        let ghost ob = out.deep_view();
        out.push(candidate);
        proof {
            dirs = dirs.push(dir@);
            assert(out.deep_view() =~= ob.push(unix_join(dir@, PROJECT_CONFIG_FILENAME@)));
        }
        match path_parent(dir.as_str()) {
            Some(q) => {
                dir = q;
            },
            None => {
                more = false;
            },
        }
    }
    assert(search_path_of(out.deep_view(), dirs, start_dir@));
    out
}

} // verus!

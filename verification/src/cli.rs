//! Resolving the settings of a command: required values and deck names.
use crate::config::{opt_view, prefer, ConfigFile};
use crate::text::{chars_of, contains_char, push_str, string_of, trim, trim_chars};
use vstd::prelude::*;

verus! {

/// The message for a missing required value.
pub open spec fn required_message(field: Seq<char>) -> Seq<char> {
    "`"@ + field + "` is required. Set it in .acli.toml or pass --"@ + field + "."@
}

/// A value that must be given, in the config or on the command line.
pub fn require<T>(value: Option<T>, field_name: &str) -> (r: Result<T, String>)
    ensures
        match value {
            Some(v) => r == Ok::<T, String>(v),
            None => r matches Err(m) && m@ == required_message(field_name@),
        },
{
    match value {
        Some(v) => Ok(v),
        None => {
            let mut m = chars_of("`");
            push_str(&mut m, field_name);
            push_str(&mut m, "` is required. Set it in .acli.toml or pass --");
            push_str(&mut m, field_name);
            push_str(&mut m, ".");
            Err(string_of(&m))
        },
    }
}

/// Why a deck name is refused, if it is: blank, holding `/`, or holding a
/// line break.
pub open spec fn deck_name_error(name: Seq<char>) -> Option<Seq<char>> {
    let t = trim(name);
    if t.len() == 0 {
        Some("deck name cannot be empty"@)
    } else if t.contains('/') {
        Some(
            "deck name '"@ + name
                + "' contains '/'. Use '::' for hierarchical decks (e.g. 'Languages::Spanish')."@,
        )
    } else if t.contains('\n') || t.contains('\r') {
        Some("deck name '"@ + name + "' contains invalid whitespace characters"@)
    } else {
        None
    }
}

/// Checks a deck name for common mistakes.
pub fn validate_deck_name(name: &str) -> (r: Result<(), String>)
    ensures
        match deck_name_error(name@) {
            Some(m) => r matches Err(e) && e@ == m,
            None => r is Ok,
        },
{
    let c = chars_of(name);
    let t = trim_chars(&c);
    if t.len() == 0 {
        return Err(string_of(&chars_of("deck name cannot be empty")));
    }
    if contains_char(&t, '/') {
        let mut m = chars_of("deck name '");
        push_str(&mut m, name);
        push_str(&mut m, "' contains '/'. Use '::' for hierarchical decks (e.g. 'Languages::Spanish').");
        return Err(string_of(&m));
    }
    if contains_char(&t, '\n') || contains_char(&t, '\r') {
        let mut m = chars_of("deck name '");
        push_str(&mut m, name);
        push_str(&mut m, "' contains invalid whitespace characters");
        return Err(string_of(&m));
    }
    Ok(())
}

/// The settings of a sync or preview.
pub struct ResolvedDeckConfig {
    pub deck_name: String,
    pub recursive: bool,
    pub collection: Option<String>,
    pub media_dir: Option<String>,
}

/// Resolves the deck settings: command-line values win over the config;
/// the deck is required and checked; recursion defaults to on.
pub fn resolve_deck_config(
    cfg: &ConfigFile,
    deck: Option<String>,
    collection: Option<String>,
    media_dir: Option<String>,
    no_recursive: bool,
) -> (r: Result<ResolvedDeckConfig, String>)
    ensures
        ({
            let d = prefer(opt_view(deck), opt_view(cfg.deck));
            match d {
                None => r matches Err(m) && m@ == required_message("deck"@),
                Some(name) => match deck_name_error(name) {
                    Some(m) => r matches Err(e) && e@ == m,
                    None => r matches Ok(c) && c.deck_name@ == name && c.recursive == (!no_recursive
                        && match cfg.recursive {
                        Some(b) => b,
                        None => true,
                    }) && opt_view(c.collection) == prefer(opt_view(collection), opt_view(cfg.collection))
                        && opt_view(c.media_dir) == prefer(opt_view(media_dir), opt_view(cfg.media_dir)),
                },
            }
        }),
{
    let chosen = match deck {
        Some(d) => Some(d),
        None => match &cfg.deck {
            Some(d) => Some(d.clone()),
            None => None,
        },
    };
    let deck_name = match require(chosen, "deck") {
        Ok(d) => d,
        Err(e) => {
            return Err(e);
        },
    };
    if let Err(e) = validate_deck_name(deck_name.as_str()) {
        return Err(e);
    }
    let recursive = if no_recursive {
        false
    } else {
        match cfg.recursive {
            Some(b) => b,
            None => true,
        }
    };
    let collection = match collection {
        Some(c) => Some(c),
        None => match &cfg.collection {
            Some(c) => Some(c.clone()),
            None => None,
        },
    };
    let media_dir = match media_dir {
        Some(m) => Some(m),
        None => match &cfg.media_dir {
            Some(m) => Some(m.clone()),
            None => None,
        },
    };
    Ok(ResolvedDeckConfig { deck_name, recursive, collection, media_dir })
}

/// Whether to search subdirectories: not with `--no-recursive`, else as
/// the config says, on by default.
pub fn resolve_recursive(cfg: &ConfigFile, no_recursive: bool) -> (r: bool)
    ensures
        r == (!no_recursive && match cfg.recursive {
            Some(b) => b,
            None => true,
        }),
{
    if no_recursive {
        false
    } else {
        match cfg.recursive {
            Some(b) => b,
            None => true,
        }
    }
}

/// The deck name and recursion of the preview server: the deck given on
/// the command line, else the config's, else `Preview`; the name must pass
/// the deck name check.
pub fn resolve_serve_config(cfg: &ConfigFile, deck: Option<String>, no_recursive: bool) -> (r: Result<
    (String, bool),
    String,
>)
    ensures
        ({
            let name = match prefer(opt_view(deck), opt_view(cfg.deck)) {
                Some(n) => n,
                None => "Preview"@,
            };
            match deck_name_error(name) {
                Some(m) => r matches Err(e) && e@ == m,
                None => r matches Ok(v) && v.0@ == name && v.1 == (!no_recursive && match cfg.recursive {
                    Some(b) => b,
                    None => true,
                }),
            }
        }),
{
    let deck_name = match deck {
        Some(d) => d,
        None => match &cfg.deck {
            Some(d) => d.clone(),
            None => string_of(&chars_of("Preview")),
        },
    };
    if let Err(e) = validate_deck_name(deck_name.as_str()) {
        return Err(e);
    }
    let recursive = resolve_recursive(cfg, no_recursive);
    Ok((deck_name, recursive))
}

} // verus!

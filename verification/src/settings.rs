//! Where the app keeps its settings and where the library lives by default.
//! The caller reads the environment and the settings file; these functions
//! decide.

use vstd::prelude::*;
use crate::json::{Json, JsonV, jget, jget_str, jv, parse_spec};
use crate::storage::{join, joined, main_separator};
use crate::text::{copy_string, str_eq};
use crate::yamlish::{trim, trim_str};

verus! {

/// The text of an optional string.
pub open spec fn opt_text(o: Option<&str>) -> Option<Seq<char>> {
    match o {
        Some(t) => Some(t@),
        None => None,
    }
}

/// The configuration folder: `%APPDATA%/PromptManager` on Windows when
/// `APPDATA` is set, else `$HOME/.config/PromptManager` when `HOME` is set,
/// else `./PromptManager`.
pub open spec fn config_dir_v(windows: bool, appdata: Option<Seq<char>>, home: Option<Seq<char>>, sep: char) -> Seq<char> {
    match (windows, appdata, home) {
        (true, Some(a), _) => joined(a, sep, "PromptManager"@),
        (_, _, Some(h)) => joined(joined(h, sep, ".config"@), sep, "PromptManager"@),
        _ => joined("."@, sep, "PromptManager"@),
    }
}

/// The configuration folder from the platform and the `APPDATA` and `HOME`
/// variables.
pub fn config_dir(windows: bool, appdata: Option<&str>, home: Option<&str>) -> (r: String)
    ensures
        exists|sep: char|
            r@ == #[trigger] config_dir_v(
                windows,
                opt_text(appdata),
                opt_text(home),
                sep,
            ),
{
    let sep = main_separator();
    let r = match (windows, appdata, home) {
        (true, Some(a), _) => join(a, sep, "PromptManager"),
        (_, _, Some(h)) => {
            let c = join(h, sep, ".config");
            join(c.as_str(), sep, "PromptManager")
        },
        _ => join(".", sep, "PromptManager"),
    };
    assert(r@ == config_dir_v(windows, opt_text(appdata), opt_text(home), sep));
    r
}

/// `settings.json` in the configuration folder.
pub fn settings_path(config_dir: &str) -> (r: String)
    ensures
        exists|sep: char| r@ == #[trigger] joined(config_dir@, sep, "settings.json"@),
{
    let sep = main_separator();
    join(config_dir, sep, "settings.json")
}

/// The library folder: the `PROMPT_MANAGER_LIBRARY` variable when it is not
/// blank, else `library_dir` of the settings file when it is not blank,
/// else `library` in the configuration folder.
pub open spec fn library_root_v(env: Option<Seq<char>>, config_dir: Seq<char>, settings: Option<Seq<char>>, sep: char) -> Seq<char> {
    match env {
        Some(e) if trim(e).len() > 0 => e,
        _ => match settings {
            Some(t) => match parse_spec(t) {
                Some(v) => match jget_str(v, "library_dir"@) {
                    Some(d) if trim(d).len() > 0 => d,
                    _ => joined(config_dir, sep, "library"@),
                },
                None => joined(config_dir, sep, "library"@),
            },
            None => joined(config_dir, sep, "library"@),
        },
    }
}

/// The default library folder, kept in step with the desktop app, from the
/// `PROMPT_MANAGER_LIBRARY` variable, the configuration folder and the text
/// of the settings file (each `None` when absent or unreadable).
pub fn default_library_root(env: Option<&str>, config_dir: &str, settings: Option<&str>) -> (r: String)
    ensures
        exists|sep: char|
            r@ == #[trigger] library_root_v(
                opt_text(env),
                config_dir@,
                opt_text(settings),
                sep,
            ),
{
    let sep = main_separator();
    let ghost target = library_root_v(opt_text(env), config_dir@, opt_text(settings), sep);
    if let Some(e) = env {
        let t = trim_str(e);
        if t.as_str().unicode_len() > 0 {
            let r = copy_string(e);
            assert(r@ == target);
            return r;
        }
    }
    if let Some(text) = settings {
        if let Ok(v) = Json::parse(text) {
            if let Some(d) = v.get_str("library_dir") {
                let t = trim_str(d);
                if t.as_str().unicode_len() > 0 {
                    let r = copy_string(d);
                    assert(r@ == target);
                    return r;
                }
            }
        }
    }
    let r = join(config_dir, sep, "library");
    assert(r@ == target);
    r
}

/// The `library_dir` text of a settings file, when the file is JSON.
pub open spec fn settings_library_dir(settings: Option<Seq<char>>) -> Option<Seq<char>> {
    match settings {
        Some(t) => match parse_spec(t) {
            Some(v) => jget_str(v, "library_dir"@),
            None => None,
        },
        None => None,
    }
}

/// The library folder goes by precedence: a `PROMPT_MANAGER_LIBRARY` value
/// that is not blank wins over everything; without one, a `library_dir` of
/// the settings file that is not blank; without either, the folder
/// `library` in the configuration folder.
pub proof fn lemma_library_root_precedence(
    env: Option<Seq<char>>,
    config_dir: Seq<char>,
    settings: Option<Seq<char>>,
    sep: char,
)
    ensures
        not_blank(env) matches Some(e) ==> library_root_v(env, config_dir, settings, sep) == e,
        not_blank(env) is None ==> (not_blank(settings_library_dir(settings)) matches Some(d) ==> library_root_v(
            env,
            config_dir,
            settings,
            sep,
        ) == d),
        not_blank(env) is None && not_blank(settings_library_dir(settings)) is None ==> library_root_v(
            env,
            config_dir,
            settings,
            sep,
        ) == joined(config_dir, sep, "library"@),
{
}

/// The configuration folder is `PromptManager` under `APPDATA` on Windows
/// when that is set, else under `.config` in `HOME` when that is set, else
/// in the working folder.
pub proof fn lemma_config_dir_choice(windows: bool, appdata: Option<Seq<char>>, home: Option<Seq<char>>, sep: char)
    ensures
        windows && appdata is Some ==> config_dir_v(windows, appdata, home, sep) == joined(
            appdata->Some_0,
            sep,
            "PromptManager"@,
        ),
        !(windows && appdata is Some) && home is Some ==> config_dir_v(windows, appdata, home, sep) == joined(
            joined(home->Some_0, sep, ".config"@),
            sep,
            "PromptManager"@,
        ),
        !(windows && appdata is Some) && home is None ==> config_dir_v(windows, appdata, home, sep) == joined(
            "."@,
            sep,
            "PromptManager"@,
        ),
{
}

/// What a settings document sets of the settings that are text or
/// switches; `None` where the default (or the current value) stays.
pub struct SettingsFields {
    pub library_dir: Option<String>,
    pub api_enabled: Option<bool>,
    pub api_key: Option<String>,
    pub shortcut: Option<String>,
    pub always_on_top: Option<bool>,
    pub language: Option<String>,
    pub widget_enabled: Option<bool>,
    /// the settings dialog asks for a fresh API key
    pub regenerate_api_key: bool,
}

pub open spec fn opt_string(o: Option<String>) -> Option<Seq<char>> {
    match o {
        Some(t) => Some(t@),
        None => None,
    }
}

/// Boolean member `k` of an object value.
pub open spec fn jget_bool(v: JsonV, k: Seq<char>) -> Option<bool> {
    match jget(v, k) {
        Some(JsonV::Bool(b)) => Some(b),
        _ => None,
    }
}

/// A text that is not blank.
pub open spec fn not_blank(o: Option<Seq<char>>) -> Option<Seq<char>> {
    match o {
        Some(t) if trim(t).len() > 0 => Some(t),
        _ => None,
    }
}

/// A text that is not empty.
pub open spec fn not_empty(o: Option<Seq<char>>) -> Option<Seq<char>> {
    match o {
        Some(t) if t.len() > 0 => Some(t),
        _ => None,
    }
}

/// A language the user interface speaks: `en`, `cs` or `de`.
pub open spec fn known_language(o: Option<Seq<char>>) -> Option<Seq<char>> {
    match o {
        Some(t) if t == "en"@ || t == "cs"@ || t == "de"@ => Some(t),
        _ => None,
    }
}

/// Reads the text and switch settings of a settings document: a blank
/// `library_dir`, an empty `api_key` or `shortcut`, a `language` other than
/// `en`, `cs` and `de`, and a member of the wrong type are ignored.
pub fn settings_fields(v: &Json) -> (r: SettingsFields)
    ensures
        opt_string(r.library_dir) == not_blank(jget_str(jv(*v), "library_dir"@)),
        r.api_enabled == jget_bool(jv(*v), "api_enabled"@),
        opt_string(r.api_key) == not_empty(jget_str(jv(*v), "api_key"@)),
        opt_string(r.shortcut) == not_empty(jget_str(jv(*v), "shortcut"@)),
        r.always_on_top == jget_bool(jv(*v), "always_on_top"@),
        opt_string(r.language) == known_language(jget_str(jv(*v), "language"@)),
        r.widget_enabled == jget_bool(jv(*v), "widget_enabled"@),
        r.regenerate_api_key == (jget_bool(jv(*v), "regenerate_api_key"@) == Some(true)),
{
    let library_dir = match v.get_str("library_dir") {
        Some(d) => {
            let t = trim_str(d);
            if t.as_str().unicode_len() > 0 {
                Some(copy_string(d))
            } else {
                None
            }
        },
        None => None,
    };
    let api_key = match v.get_str("api_key") {
        Some(k) => if k.unicode_len() > 0 {
            Some(copy_string(k))
        } else {
            None
        },
        None => None,
    };
    let shortcut = match v.get_str("shortcut") {
        Some(k) => if k.unicode_len() > 0 {
            Some(copy_string(k))
        } else {
            None
        },
        None => None,
    };
    let language = match v.get_str("language") {
        Some(l) => if str_eq(l, "en") || str_eq(l, "cs") || str_eq(l, "de") {
            Some(copy_string(l))
        } else {
            None
        },
        None => None,
    };
    let regenerate = match get_bool(v, "regenerate_api_key") {
        Some(b) => b,
        None => false,
    };
    SettingsFields {
        library_dir,
        api_enabled: get_bool(v, "api_enabled"),
        api_key,
        shortcut,
        always_on_top: get_bool(v, "always_on_top"),
        language,
        widget_enabled: get_bool(v, "widget_enabled"),
        regenerate_api_key: regenerate,
    }
}

fn get_bool(v: &Json, key: &str) -> (r: Option<bool>)
    ensures
        r == jget_bool(jv(*v), key@),
{
    match v.get(key) {
        Some(x) => x.as_bool(),
        None => None,
    }
}

} // verus!

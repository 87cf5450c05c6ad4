//! The persisted settings and the configuration shown to the user.

use vstd::prelude::*;
use crate::text::concat2;
use crate::wwise::bank::str_eq;

verus! {

/// Persisted app settings.
pub struct Settings {
    pub game_root: Option<String>,
    pub language: Option<String>,
    pub theme: Option<String>,
    pub accent: Option<String>,
}

/// The one language the interface has.
pub open spec fn supported_language() -> Seq<char> {
    seq!['e', 'n']
}

/// The configuration shown to the user.
pub struct Config {
    pub game_root_path: Option<String>,
    pub game_root_valid: bool,
    pub language: Option<String>,
    pub theme: Option<String>,
    pub accent: Option<String>,
    pub unit_count: usize,
    /// False while cached data is indexing or no valid index is loaded.
    pub resources_ready: bool,
}

/// A language kept only when it is the supported one.
pub open spec fn kept_language(l: Option<String>) -> Option<String> {
    match l {
        Some(s) => if s@ == supported_language() { Some(s) } else { None },
        None => None,
    }
}

impl Settings {
    /// Settings with the install root set to `path` and the rest unchanged.
    pub fn with_game_root(self, path: &str) -> (r: Settings)
        ensures
            r.game_root matches Some(g) && g@ == path@,
            r.language == self.language,
            r.theme == self.theme,
            r.accent == self.accent,
    {
        Settings { game_root: Some(String::from_str(path)), ..self }
    }

    /// The configuration for these settings: a language other than the
    /// supported one is dropped; whether the root is valid, the unit count
    /// and whether resources are ready come from the caller.
    pub fn config(self, game_root_valid: bool, unit_count: usize, resources_ready: bool) -> (c: Config)
        ensures
            c.game_root_path == self.game_root,
            c.game_root_valid == game_root_valid,
            c.language == kept_language(self.language),
            c.theme == self.theme,
            c.accent == self.accent,
            c.unit_count == unit_count,
            c.resources_ready == resources_ready,
    {
        let language = match self.language {
            Some(l) => {
                let en = String::from_str("en");
                proof {
                    reveal_strlit("en");
                    assert("en"@ =~= supported_language());
                }
                if str_eq(l.as_str(), en.as_str()) {
                    Some(l)
                } else {
                    None
                }
            },
            None => None,
        };
        Config {
            game_root_path: self.game_root,
            game_root_valid,
            language,
            theme: self.theme,
            accent: self.accent,
            unit_count,
            resources_ready,
        }
    }
}

/// Accepts the supported language and refuses any other with
/// `"Unsupported language: <language>"`.
pub fn check_language(language: &str) -> (r: Result<(), String>)
    ensures
        r is Ok <==> language@ == supported_language(),
        r matches Err(e) ==> e@ == "Unsupported language: "@ + language@,
{
    proof {
        reveal_strlit("en");
        assert("en"@ =~= supported_language());
    }
    if str_eq(language, "en") {
        Ok(())
    } else {
        Err(concat2("Unsupported language: ", language))
    }
}

} // verus!

//! Where the database of saved selections is kept.

use vstd::prelude::*;

use crate::selection::{nothing_saved, SelectionDb, SelectionView};
use crate::text::{opt_string, texts};

verus! {

/// The systems whose conventions differ.
#[derive(Clone, Copy, PartialEq, Eq, Structural)]
pub enum Platform {
    MacOs,
    Windows,
    Other,
}

/// The environment variables that say where a user's files are. A variable that is not set, or
/// is not valid Unicode, is `None`.
pub struct Variables {
    pub home: Option<String>,
    pub userprofile: Option<String>,
    pub appdata: Option<String>,
    pub xdg_config_home: Option<String>,
}

/// The user's home directory: `HOME`, or `USERPROFILE`, or the current directory.
pub open spec fn home_directory(vars: Variables) -> Seq<char> {
    match (vars.home, vars.userprofile) {
        (Some(home), _) => home@,
        (None, Some(profile)) => profile@,
        (None, None) => "."@,
    }
}

/// The directory of the application, as the parts of its path.
pub open spec fn config_parts(platform: Platform, vars: Variables) -> Seq<Seq<char>> {
    let base = match platform {
        Platform::MacOs => seq![home_directory(vars), "Library/Application Support"@],
        Platform::Windows => match vars.appdata {
            Some(dir) => seq![dir@],
            None => seq![home_directory(vars)],
        },
        Platform::Other => match vars.xdg_config_home {
            Some(dir) => seq![dir@],
            None => seq![home_directory(vars), ".config"@],
        },
    };
    base.push("openapi-edit"@)
}

/// The file of the database: one that was asked for, or the one in the application's directory.
pub open spec fn storage_parts(
    custom_path: Option<Seq<char>>,
    platform: Platform,
    vars: Variables,
) -> Seq<Seq<char>> {
    match custom_path {
        Some(path) => seq![path],
        None => config_parts(platform, vars).push("selections.json"@),
    }
}

/// Helper: user home directory.
pub fn dirs(vars: &Variables) -> (r: String)
    ensures
        r@ == home_directory(*vars),
{
    match &vars.home {
        Some(home) => home.clone(),
        None => match &vars.userprofile {
            Some(profile) => profile.clone(),
            None => ".".to_owned(),
        },
    }
}

impl SelectionDb {
    /// Platform-appropriate config directory for the app, as parts to be joined in order.
    pub fn config_dir(platform: Platform, vars: &Variables) -> (r: Vec<String>)
        ensures
            texts(r@) == config_parts(platform, *vars),
    {
        let mut parts: Vec<String> = Vec::new();
        match platform {
            Platform::MacOs => {
                parts.push(dirs(vars));
                parts.push("Library/Application Support".to_owned());
            },
            Platform::Windows => match &vars.appdata {
                Some(dir) => {
                    parts.push(dir.clone());
                },
                None => {
                    parts.push(dirs(vars));
                },
            },
            Platform::Other => match &vars.xdg_config_home {
                Some(dir) => {
                    parts.push(dir.clone());
                },
                None => {
                    parts.push(dirs(vars));
                    parts.push(".config".to_owned());
                },
            },
        }
        parts.push("openapi-edit".to_owned());
        proof {
            assert(texts(parts@) =~= config_parts(platform, *vars));
        }
        parts
    }

    /// The database file in the application's directory, as parts to be joined in order.
    pub fn db_path(platform: Platform, vars: &Variables) -> (r: Vec<String>)
        ensures
            texts(r@) == config_parts(platform, *vars).push("selections.json"@),
    {
        let mut parts = Self::config_dir(platform, vars);
        parts.push("selections.json".to_owned());
        proof {
            assert(texts(parts@) =~= config_parts(platform, *vars).push("selections.json"@));
        }
        parts
    }

    /// The file that the database is read from and written to, as parts to be joined in order.
    pub fn storage_path(
        custom_path: &Option<String>,
        platform: Platform,
        vars: &Variables,
    ) -> (r: Vec<String>)
        ensures
            texts(r@) == storage_parts(opt_string(*custom_path), platform, *vars),
    {
        match custom_path {
            Some(path) => {
                let mut parts: Vec<String> = Vec::new();
                parts.push(path.clone());
                proof {
                    assert(texts(parts@) =~= seq![path@]);
                }
                parts
            },
            None => Self::db_path(platform, vars),
        }
    }

    /// The database of a session, from what its file held. `None` stands for a file that could
    /// not be read or did not hold a database.
    pub fn load(stored: Option<SelectionDb>, custom_path: Option<String>) -> (r: SelectionDb)
        requires
            stored matches Some(db) ==> db.well_formed(),
        ensures
            r.well_formed(),
            r@ == (SelectionView {
                custom_path: opt_string(custom_path),
                ..match stored {
                    Some(db) => db@,
                    None => nothing_saved(),
                }
            }),
    {
        let mut db = match stored {
            Some(db) => db,
            None => SelectionDb::default(),
        };
        db.custom_path = custom_path;
        db
    }
}

} // verus!

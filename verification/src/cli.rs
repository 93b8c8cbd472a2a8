//! The command line, and exports without a window.

use vstd::prelude::*;

use crate::app_state::{lemma_restored_operations, unit_result};
use crate::codec::{serialize_spec, serialized, text_result};
use crate::drift::{apply_saved_selection_cli, compare_with_saved, current_keys, DriftReport};
use crate::extract::{extract_groups, extracted, is_countable};
use crate::filter::{build_filtered_spec, filtered};
use crate::format::{detect_format, is_format_of, SpecFormat};
use crate::json::{Json, JsonView};
use crate::model::{
    count_operations, count_selected, groups_operations, groups_selected, groups_view,
    lemma_groups_selected_at_most, GroupView, PathGroup,
};
use crate::selection::{list_operations, SelectionDb, SelectionView};
use crate::text::{
    begins_with, decimal, decimal_text, opt_string, opt_text, same_text, texts, with_tail,
};
use crate::text_set::set_of;

verus! {

/// What the command line asks for.
pub struct CliArgs {
    pub input: Option<String>,
    pub export_path: Option<String>,
    pub db_path: Option<String>,
    pub user: Option<String>,
    pub password: Option<String>,
    pub force_export_path: Option<String>,
}

/// What a [`CliArgs`] holds.
pub struct CliView {
    pub input: Option<Seq<char>>,
    pub export_path: Option<Seq<char>>,
    pub db_path: Option<Seq<char>>,
    pub user: Option<Seq<char>>,
    pub password: Option<Seq<char>>,
    pub force_export_path: Option<Seq<char>>,
}

impl View for CliArgs {
    type V = CliView;

    open spec fn view(&self) -> CliView {
        CliView {
            input: opt_string(self.input),
            export_path: opt_string(self.export_path),
            db_path: opt_string(self.db_path),
            user: opt_string(self.user),
            password: opt_string(self.password),
            force_export_path: opt_string(self.force_export_path),
        }
    }
}

/// The options that take a value.
#[derive(Clone, Copy, PartialEq, Eq, Structural)]
pub enum Flag {
    Export,
    Db,
    User,
    Password,
    ForceExportPath,
}

/// What becomes of a command line.
pub enum Invocation {
    /// Go on with these arguments.
    Run(CliArgs),
    /// Print the help text and stop.
    Help,
    /// Report that an option is the last argument, without its value, and stop.
    Missing(Flag),
}

/// What an [`Invocation`] says.
pub enum InvocationView {
    Run(CliView),
    Help,
    Missing(Flag),
}

impl View for Invocation {
    type V = InvocationView;

    open spec fn view(&self) -> InvocationView {
        match self {
            Invocation::Run(args) => InvocationView::Run(args@),
            Invocation::Help => InvocationView::Help,
            Invocation::Missing(flag) => InvocationView::Missing(*flag),
        }
    }
}

/// The option that an argument names, if it names one that takes a value.
pub open spec fn flag_of(arg: Seq<char>) -> Option<Flag> {
    if arg == "--export"@ {
        Some(Flag::Export)
    } else if arg == "--db"@ {
        Some(Flag::Db)
    } else if arg == "--user"@ {
        Some(Flag::User)
    } else if arg == "--password"@ {
        Some(Flag::Password)
    } else if arg == "--force-export-path"@ {
        Some(Flag::ForceExportPath)
    } else {
        None
    }
}

/// The arguments when nothing was given.
pub open spec fn no_arguments() -> CliView {
    CliView {
        input: None,
        export_path: None,
        db_path: None,
        user: None,
        password: None,
        force_export_path: None,
    }
}

impl CliView {
    /// The arguments with the value of an option. A later value replaces an earlier one.
    pub open spec fn with_value(self, flag: Flag, value: Seq<char>) -> CliView {
        match flag {
            Flag::Export => CliView { export_path: Some(value), ..self },
            Flag::Db => CliView { db_path: Some(value), ..self },
            Flag::User => CliView { user: Some(value), ..self },
            Flag::Password => CliView { password: Some(value), ..self },
            Flag::ForceExportPath => CliView { force_export_path: Some(value), ..self },
        }
    }

    /// What becomes of the arguments when those of `rest` follow. An option takes the argument
    /// behind it whatever that is; the help text is asked for where an argument asks for it
    /// first; any other argument is the input.
    pub open spec fn followed_by(self, rest: Seq<Seq<char>>) -> InvocationView
        decreases rest.len(),
    {
        if rest.len() == 0 {
            InvocationView::Run(self)
        } else {
            match flag_of(rest[0]) {
                Some(flag) => if rest.len() == 1 {
                    InvocationView::Missing(flag)
                } else {
                    self.with_value(flag, rest[1]).followed_by(rest.skip(2))
                },
                None => if rest[0] == "--help"@ || rest[0] == "-h"@ {
                    InvocationView::Help
                } else {
                    (CliView { input: Some(rest[0]), ..self }).followed_by(rest.skip(1))
                },
            }
        }
    }
}

/// What is reported of an option without its value.
pub open spec fn missing_text(flag: Flag) -> Seq<char> {
    match flag {
        Flag::Export => "Error: --export requires an output file path"@,
        Flag::Db => "Error: --db requires a file path"@,
        Flag::User => "Error: --user requires a username"@,
        Flag::Password => "Error: --password requires a password"@,
        Flag::ForceExportPath => "Error: --force-export-path requires a file path"@,
    }
}

/// The help text.
pub open spec fn usage_text() -> Seq<Seq<char>> {
    seq![
        "Usage: openapi-edit [INPUT] [OPTIONS]"@,
        ""@,
        "  INPUT   Path or URL to an OpenAPI spec (YAML/JSON)"@,
        "  --export OUTPUT"@,
        "          Export filtered spec to OUTPUT without opening the GUI."@,
        "          Requires a previous GUI export to establish the selection."@,
        "          If no saved selection exists, the GUI opens instead."@,
        "  --force-export-path PATH"@,
        "          In GUI mode, the Export button writes directly to PATH"@,
        "          instead of opening a file dialog."@,
        "  --db PATH"@,
        "          Use a custom path for the selections database file."@,
        "          Defaults to the platform config directory."@,
        "  --user USER"@,
        "          Username for HTTP Basic Authentication (URL sources only)."@,
        "  --password PASSWORD"@,
        "          Password for HTTP Basic Authentication (URL sources only)."@,
    ]
}

/// The option that an argument names, if it names one that takes a value.
fn read_flag(arg: &str) -> (r: Option<Flag>)
    ensures
        r == flag_of(arg@),
{
    if same_text(arg, "--export") {
        Some(Flag::Export)
    } else if same_text(arg, "--db") {
        Some(Flag::Db)
    } else if same_text(arg, "--user") {
        Some(Flag::User)
    } else if same_text(arg, "--password") {
        Some(Flag::Password)
    } else if same_text(arg, "--force-export-path") {
        Some(Flag::ForceExportPath)
    } else {
        None
    }
}

/// Read the arguments of a command line, those behind the name of the program.
pub fn parse_args(args: &Vec<String>) -> (r: Invocation)
    ensures
        r@ == no_arguments().followed_by(texts(args@)),
{
    let ghost words = texts(args@);
    let mut cli = CliArgs {
        input: None,
        export_path: None,
        db_path: None,
        user: None,
        password: None,
        force_export_path: None,
    };
    let mut i: usize = 0;
    proof {
        assert(words.skip(0) =~= words);
    }
    while i < args.len()
        invariant
            words == texts(args@),
            i <= args.len(),
            no_arguments().followed_by(words) == cli@.followed_by(words.skip(i as int)),
        decreases args.len() - i,
    {
        proof {
            assert(words.skip(i as int)[0] == args@[i as int]@);
            assert(words.skip(i as int).skip(1) =~= words.skip(i + 1));
        }
        match read_flag(args[i].as_str()) {
            Some(flag) => {
                i += 1;
                if i == args.len() {
                    return Invocation::Missing(flag);
                }
                proof {
                    assert(words.skip(i - 1)[1] == args@[i as int]@);
                    assert(words.skip(i - 1).skip(2) =~= words.skip(i + 1));
                }
                let value = Some(args[i].clone());
                match flag {
                    Flag::Export => {
                        cli.export_path = value;
                    },
                    Flag::Db => {
                        cli.db_path = value;
                    },
                    Flag::User => {
                        cli.user = value;
                    },
                    Flag::Password => {
                        cli.password = value;
                    },
                    Flag::ForceExportPath => {
                        cli.force_export_path = value;
                    },
                }
            },
            None => {
                if same_text(args[i].as_str(), "--help") || same_text(args[i].as_str(), "-h") {
                    return Invocation::Help;
                }
                cli.input = Some(args[i].clone());
            },
        }
        i += 1;
    }
    Invocation::Run(cli)
}

/// What is reported of an option without its value.
pub fn missing_message(flag: Flag) -> (r: &'static str)
    ensures
        r@ == missing_text(flag),
{
    match flag {
        Flag::Export => "Error: --export requires an output file path",
        Flag::Db => "Error: --db requires a file path",
        Flag::User => "Error: --user requires a username",
        Flag::Password => "Error: --password requires a password",
        Flag::ForceExportPath => "Error: --force-export-path requires a file path",
    }
}

/// The lines of the help text.
pub fn usage() -> (r: Vec<&'static str>)
    ensures
        r@.map_values(|line: &'static str| line@) == usage_text(),
{
    let lines = vec![
        "Usage: openapi-edit [INPUT] [OPTIONS]",
        "",
        "  INPUT   Path or URL to an OpenAPI spec (YAML/JSON)",
        "  --export OUTPUT",
        "          Export filtered spec to OUTPUT without opening the GUI.",
        "          Requires a previous GUI export to establish the selection.",
        "          If no saved selection exists, the GUI opens instead.",
        "  --force-export-path PATH",
        "          In GUI mode, the Export button writes directly to PATH",
        "          instead of opening a file dialog.",
        "  --db PATH",
        "          Use a custom path for the selections database file.",
        "          Defaults to the platform config directory.",
        "  --user USER",
        "          Username for HTTP Basic Authentication (URL sources only).",
        "  --password PASSWORD",
        "          Password for HTTP Basic Authentication (URL sources only).",
    ];
    proof {
        assert(lines@.map_values(|line: &'static str| line@) =~= usage_text());
    }
    lines
}

/// Where the document of a command line comes from.
pub enum InputSource {
    Nowhere,
    File(String),
    /// A URL, with the user and the password that it is asked for with.
    Url(String, Option<(String, String)>),
}

/// What an [`InputSource`] says.
pub enum SourceView {
    Nowhere,
    File(Seq<char>),
    Url(Seq<char>, Option<(Seq<char>, Seq<char>)>),
}

impl View for InputSource {
    type V = SourceView;

    open spec fn view(&self) -> SourceView {
        match self {
            InputSource::Nowhere => SourceView::Nowhere,
            InputSource::File(path) => SourceView::File(path@),
            InputSource::Url(url, auth) => SourceView::Url(
                url@,
                match auth {
                    Some((user, password)) => Some((user@, password@)),
                    None => None,
                },
            ),
        }
    }
}

impl CliView {
    /// Where the document comes from: a URL by its scheme, otherwise a file. A user and a
    /// password count only together.
    pub open spec fn source(self) -> SourceView {
        match self.input {
            Some(input) => if "http://"@.is_prefix_of(input) || "https://"@.is_prefix_of(input) {
                SourceView::Url(
                    input,
                    match (self.user, self.password) {
                        (Some(user), Some(password)) => Some((user, password)),
                        _ => None,
                    },
                )
            } else {
                SourceView::File(input)
            },
            None => SourceView::Nowhere,
        }
    }

    /// Why the arguments cannot be followed, if they cannot: there is nothing to export.
    pub open spec fn refusal(self) -> Option<Seq<char>> {
        if self.export_path is Some && self.input is None {
            Some("Error: --export requires an input file or URL"@)
        } else {
            None
        }
    }
}

impl CliArgs {
    /// Where the document comes from.
    pub fn source(&self) -> (r: InputSource)
        ensures
            r@ == self@.source(),
    {
        match &self.input {
            Some(input) => {
                if begins_with(input.as_str(), "http://") || begins_with(
                    input.as_str(),
                    "https://",
                ) {
                    let auth = match (&self.user, &self.password) {
                        (Some(user), Some(password)) => Some((user.clone(), password.clone())),
                        _ => None,
                    };
                    InputSource::Url(input.clone(), auth)
                } else {
                    InputSource::File(input.clone())
                }
            },
            None => InputSource::Nowhere,
        }
    }

    /// Why the arguments cannot be followed, if they cannot.
    pub fn refusal(&self) -> (r: Option<&'static str>)
        ensures
            opt_text(r) == self@.refusal(),
    {
        if self.export_path.is_some() && self.input.is_none() {
            Some("Error: --export requires an input file or URL")
        } else {
            None
        }
    }
}

/// An export that is ready to be written.
pub struct CliExport {
    /// The groups, with the saved selection.
    pub groups: Vec<PathGroup>,
    /// How the document has changed since the selection was saved.
    pub report: DriftReport,
    /// The text to write, or what is reported when there is none.
    pub output: Result<String, String>,
}

/// The groups of an export without a window: those of the document, with what is saved for the
/// source deselected. `None` if nothing was ever saved for it: then there is no selection to export
/// by.
pub open spec fn cli_groups(
    db: SelectionView,
    key: Seq<char>,
    document: JsonView,
) -> Result<Option<Seq<GroupView>>, Seq<char>> {
    if !db.knows(key) {
        Ok(None)
    } else {
        match extracted(document) {
            Ok(groups) => Ok(Some(db.applied(key, groups))),
            Err(error) => Err(error),
        }
    }
}

/// The result of preparing an export is as the database and the document say.
pub open spec fn is_cli_export(
    r: Result<Option<CliExport>, String>,
    db: SelectionView,
    key: Seq<char>,
    document: JsonView,
    format: SpecFormat,
) -> bool {
    match (r, cli_groups(db, key, document)) {
        (Ok(Some(export)), Ok(Some(groups))) => {
            &&& groups_view(export.groups@) == groups
            &&& text_result(export.output) == serialized(
                filtered(document, groups, true),
                format,
            )
            &&& export.report.tells(
                db.deselected_in(key),
                db.known_in(key),
                current_keys(extracted(document)->Ok_0),
            )
        },
        (Ok(None), Ok(None)) => true,
        (Err(error), Err(text)) => error@ == text,
        _ => false,
    }
}

/// Make an export by the saved selection of a source, in the format that the path of the file it
/// is for tells. `Ok(None)` if no selection was ever saved, so that it has to be made first.
pub fn prepare_cli_export(
    source_key: &str,
    spec: &Json,
    export_path: &str,
    db: &SelectionDb,
) -> (r: Result<Option<CliExport>, String>)
    requires
        db.well_formed(),
        spec@.well_formed(),
    ensures
        exists|format: SpecFormat| #[trigger]
            is_format_of(export_path@, format) && is_cli_export(
                r,
                db@,
                source_key@,
                spec@,
                format,
            ),
        r matches Ok(Some(export)) ==> is_countable(groups_view(export.groups@)),
{
    let format = detect_format(export_path);
    proof {
        assert(is_format_of(export_path@, format));
    }
    export_in_format(source_key, spec, format, db)
}

/// Make an export by the saved selection of a source in the given format. `Ok(None)` if no
/// selection was ever saved.
pub fn export_in_format(
    source_key: &str,
    spec: &Json,
    format: SpecFormat,
    db: &SelectionDb,
) -> (r: Result<Option<CliExport>, String>)
    requires
        db.well_formed(),
        spec@.well_formed(),
    ensures
        is_cli_export(r, db@, source_key@, spec@, format),
        r matches Ok(Some(export)) ==> is_countable(groups_view(export.groups@)),
{
    if !db.has_selection(source_key) && !db.all_paths.contains_key(source_key) {
        return Ok(None);
    }
    let mut groups = match extract_groups(spec) {
        Ok(groups) => groups,
        Err(error) => {
            return Err(error);
        },
    };
    let ghost found = groups_view(groups@);
    let report = match apply_saved_selection_cli(&mut groups, db, source_key) {
        Some(report) => report,
        None => {
            // Everything was selected.
            let none: Vec<String> = Vec::new();
            proof {
                assert(texts(none@) =~= Seq::empty());
            }
            let current = set_of(&list_operations(groups.as_slice()));
            compare_with_saved(&none, db.all_paths.get(source_key), &current)
        },
    };
    proof {
        if db@.deselected.contains_key(source_key@) {
            lemma_restored_operations(found, db@.deselected[source_key@].to_set());
        }
    }
    let out = build_filtered_spec(spec, groups.as_slice(), true);
    let output = serialize_spec(&out, format);
    Ok(Some(CliExport { groups, report, output }))
}

/// What is printed after an export.
pub open spec fn export_summary(groups: Seq<GroupView>, path: Seq<char>) -> Seq<char> {
    "Exported "@ + decimal(groups_selected(groups)) + "/"@ + decimal(groups_operations(groups))
        + " operations to "@ + path
}

/// What is kept after the outcome of writing an export is known: the selection, if it was written.
pub open spec fn kept_after_export(
    db: SelectionView,
    key: Seq<char>,
    groups: Seq<GroupView>,
    outcome: Result<(), Seq<char>>,
) -> SelectionView {
    match outcome {
        Ok(_) => db.recorded(key, groups),
        Err(_) => db,
    }
}

/// Take note of the outcome of writing an export to a file: the selection is saved and a summary
/// returned, or nothing changes and the error is returned.
pub fn finish_cli_export(
    db: &mut SelectionDb,
    source_key: &str,
    groups: &Vec<PathGroup>,
    outcome: Result<(), String>,
    path: &str,
) -> (r: Result<String, String>)
    requires
        old(db).well_formed(),
        is_countable(groups_view(groups@)),
    ensures
        final(db).well_formed(),
        final(db)@ == kept_after_export(
            old(db)@,
            source_key@,
            groups_view(groups@),
            unit_result(outcome),
        ),
        match unit_result(outcome) {
            Ok(_) => {
                &&& final(db)@ == old(db)@.recorded(source_key@, groups_view(groups@))
                &&& text_result(r) == Ok::<Seq<char>, Seq<char>>(
                    export_summary(groups_view(groups@), path@),
                )
            },
            Err(error) => {
                &&& *final(db) == *old(db)
                &&& text_result(r) == Err::<Seq<char>, Seq<char>>("Write error: "@ + error)
            },
        },
{
    match outcome {
        Ok(_) => {
            proof {
                lemma_groups_selected_at_most(groups_view(groups@));
            }
            let selected = count_selected(groups.as_slice());
            let total = count_operations(groups.as_slice());
            let mut summary = with_tail("Exported ", decimal_text(selected).as_str());
            summary.append("/");
            summary.append(decimal_text(total).as_str());
            summary.append(" operations to ");
            summary.append(path);
            db.record(source_key, groups.as_slice());
            Ok(summary)
        },
        Err(error) => Err(with_tail("Write error: ", error.as_str())),
    }
}

} // verus!

//! What each action of the editor makes of what it holds.

use vstd::prelude::*;

use crate::app_state::{initial_app, summary_text, AppView};
use crate::cli::export_summary;
use crate::codec::{json_parse, json_text, loaded_file, parsed, serialized, yaml_parse, yaml_text};
use crate::extract::extracted;
use crate::format::SpecFormat;
use crate::json::JsonView;
use crate::limits::fits_yaml;
use crate::model::{groups_operations, groups_selected, lemma_groups_selected_at_most, GroupView};
use crate::selection::SelectionView;
use crate::session_laws::{law_every_selection_is_a_choice, same_operations};
use crate::selection_laws::law_saved_selection_comes_back;
use crate::text::decimal;

verus! {

/// The editor has just opened a document: it shows the document and its groups with what is saved
/// for the source deselected, names it in the status, with the counts if anything was left out, and
/// has everything else as before.
pub open spec fn has_opened(
    before: AppView,
    after: AppView,
    tree: JsonView,
    format: SpecFormat,
    name: Seq<char>,
    key: Seq<char>,
) -> bool {
    let total = groups_operations(after.groups);
    let selected = groups_selected(after.groups);
    let loaded = "Loaded "@ + name + " — "@ + decimal(total) + " operations"@;
    &&& after.spec == Some(tree)
    &&& after.groups == before.selection_db.applied(key, extracted(tree)->Ok_0)
    &&& after.source_format == format
    &&& after.export_format == format
    &&& after.loaded_file_name == Some(name)
    &&& after.search_query.len() == 0
    &&& after.source_key == Some(key)
    &&& after.prune_components == before.prune_components
    &&& after.selection_db == before.selection_db
    &&& after.force_export_path == before.force_export_path
    &&& after.info_endpoint == before.info_endpoint
    &&& after.status == if before.selection_db.deselected.contains_key(key) && selected < total {
        loaded + " — restored previous selection ("@ + decimal(selected) + "/"@ + decimal(total)
            + ")"@
    } else {
        loaded
    }
}

/// Opening a document, be it found in a file or loaded as a text, shows it with its saved
/// selection.
pub proof fn law_opening_restores_the_selection(
    app: AppView,
    tree: JsonView,
    format: SpecFormat,
    name: Seq<char>,
    key: Seq<char>,
)
    requires
        extracted(tree) is Ok,
    ensures
        has_opened(app, app.with_file(Ok((tree, format)), name, key), tree, format, name, key),
        has_opened(app, app.with_document(Ok(tree), format, name, key), tree, format, name, key),
{
    let groups = extracted(tree)->Ok_0;
    if app.selection_db.deselected.contains_key(key) {
        crate::app_state::lemma_restored_operations(
            groups,
            app.selection_db.deselected[key].to_set(),
        );
    }
}

/// Whatever is selected of a document when its selection is saved: when the document is opened again
/// under the same key, from a file or as a text, the same is selected.
pub proof fn law_opening_again_brings_the_selection_back(
    app: AppView,
    db: SelectionView,
    groups: Seq<GroupView>,
    tree: JsonView,
    format: SpecFormat,
    name: Seq<char>,
    key: Seq<char>,
)
    requires
        tree.well_formed(),
        extracted(tree) is Ok,
        same_operations(groups, extracted(tree)->Ok_0),
        app.selection_db == db.recorded(key, groups),
    ensures
        app.with_file(Ok((tree, format)), name, key).groups == groups,
        app.with_document(Ok(tree), format, name, key).groups == groups,
{
    law_opening_restores_the_selection(app, tree, format, name, key);
    let wanted = law_every_selection_is_a_choice(tree, groups);
    law_saved_selection_comes_back(db, key, tree, wanted);
}

/// The editors hold the same but for what the status says.
pub open spec fn same_but_status(a: AppView, b: AppView) -> bool {
    &&& a.spec == b.spec
    &&& a.source_format == b.source_format
    &&& a.export_format == b.export_format
    &&& a.groups == b.groups
    &&& a.loaded_file_name == b.loaded_file_name
    &&& a.search_query == b.search_query
    &&& a.prune_components == b.prune_components
    &&& a.source_key == b.source_key
    &&& a.selection_db == b.selection_db
    &&& a.force_export_path == b.force_export_path
    &&& a.info_endpoint == b.info_endpoint
}

/// What cannot be opened is reported and changes nothing else.
pub proof fn law_what_cannot_be_opened_is_reported(
    app: AppView,
    tree: JsonView,
    error: Seq<char>,
    format: SpecFormat,
    name: Seq<char>,
    key: Seq<char>,
)
    ensures
        same_but_status(app, app.with_file(Err(error), name, key)),
        app.with_file(Err(error), name, key).status == error,
        same_but_status(app, app.with_document(Err(error), format, name, key)),
        app.with_document(Err(error), format, name, key).status == error,
        extracted(tree) is Err ==> {
            let after = app.with_file(Ok((tree, format)), name, key);
            let other = app.with_document(Ok(tree), format, name, key);
            &&& same_but_status(app, after)
            &&& same_but_status(app, other)
            &&& after.status == "No 'paths' object found in spec."@
            &&& other.status == "No 'paths' object found in spec."@
        },
{
}

/// An export that was written saves the selection, so that it comes back when the document is opened
/// again, and is reported with the number of selected operations; one that was not written is
/// reported and saves nothing.
pub proof fn law_written_exports_save_the_selection(
    app: AppView,
    path: Seq<char>,
    error: Seq<char>,
    format: SpecFormat,
    name: Seq<char>,
)
    requires
        app.coherent(),
        app.spec matches Some(tree) ==> tree.well_formed(),
    ensures
        ({
            let done = app.with_export_written(Ok(()), path);
            &&& done.status == "Exported "@ + decimal(groups_selected(app.groups))
                + " operations to "@ + path
            &&& done.groups == app.groups
            &&& same_but_status(done, AppView { selection_db: done.selection_db, ..app })
            &&& app.source_key is None ==> done.selection_db == app.selection_db
            &&& app.source_key is Some && app.spec is Some ==> done.with_file(
                Ok((app.spec->Some_0, format)),
                name,
                app.source_key->Some_0,
            ).groups == app.groups
        }),
        same_but_status(app, app.with_export_written(Err(error), path)),
        app.with_export_written(Err(error), path).status == "Write error: "@ + error,
{
    match (app.source_key, app.spec) {
        (Some(key), Some(tree)) => {
            law_opening_again_brings_the_selection_back(
                app.with_export_written(Ok(()), path),
                app.selection_db,
                app.groups,
                tree,
                format,
                name,
                key,
            );
        },
        _ => {},
    }
}

/// A new editor has no document, exports YAML without unused components, and keeps what it was
/// given.
pub proof fn law_new_editor_is_empty(db: SelectionView, forced: Option<Seq<char>>)
    ensures
        ({
            let app = initial_app(db, forced);
            &&& app.spec is None
            &&& app.groups.len() == 0
            &&& app.status == "Open an OpenAPI spec to get started."@
            &&& app.loaded_file_name is None
            &&& app.export_text() is None
            &&& app.source_format == SpecFormat::Yaml
            &&& app.export_format == SpecFormat::Yaml
            &&& app.prune_components
            &&& app.source_key is None
            &&& app.selection_db == db
            &&& app.force_export_path == forced
            &&& app.search_query.len() == 0
            &&& app.info_endpoint is None
        }),
{
}

/// A document is read and written as what its format says, and by nothing else; an error says which
/// it was.
pub proof fn law_formats_are_kept_apart(text: Seq<char>, tree: JsonView)
    ensures
        json_parse(text) matches Ok(read) ==> parsed(text, SpecFormat::Json) == Ok::<
            JsonView,
            Seq<char>,
        >(read),
        json_parse(text) matches Err(error) ==> parsed(text, SpecFormat::Json) == Err::<
            JsonView,
            Seq<char>,
        >("JSON parse error: "@ + error),
        yaml_parse(text) matches Ok(read) ==> parsed(text, SpecFormat::Yaml) == Ok::<
            JsonView,
            Seq<char>,
        >(read),
        yaml_parse(text) matches Err(error) ==> parsed(text, SpecFormat::Yaml) == Err::<
            JsonView,
            Seq<char>,
        >("YAML parse error: "@ + error),
        json_text(tree) matches Ok(written) ==> serialized(tree, SpecFormat::Json) == Ok::<
            Seq<char>,
            Seq<char>,
        >(written),
        json_text(tree) matches Err(error) ==> serialized(tree, SpecFormat::Json) == Err::<
            Seq<char>,
            Seq<char>,
        >("JSON write error: "@ + error),
        fits_yaml(tree) ==> {
            &&& yaml_text(tree) matches Ok(written) ==> serialized(tree, SpecFormat::Yaml) == Ok::<
                Seq<char>,
                Seq<char>,
            >(written)
            &&& yaml_text(tree) matches Err(error) ==> serialized(tree, SpecFormat::Yaml) == Err::<
                Seq<char>,
                Seq<char>,
            >("YAML write error: "@ + error)
        },
        !fits_yaml(tree) ==> serialized(tree, SpecFormat::Yaml) is Err,
{
}

/// A file that could be read is read in its format; one that could not is reported.
pub proof fn law_files_are_read_in_their_format(
    text: Seq<char>,
    error: Seq<char>,
    format: SpecFormat,
)
    ensures
        parsed(text, format) matches Ok(tree) ==> loaded_file(Ok(text), format) == Ok::<
            (JsonView, SpecFormat),
            Seq<char>,
        >((tree, format)),
        parsed(text, format) matches Err(why) ==> loaded_file(Ok(text), format) == Err::<
            (JsonView, SpecFormat),
            Seq<char>,
        >(why),
        loaded_file(Err(error), format) == Err::<(JsonView, SpecFormat), Seq<char>>(
            "Read error: "@ + error,
        ),
{
}

/// What is said of the counts names the selected operations first and all operations then.
pub proof fn law_counts_are_said_in_words(groups: Seq<GroupView>, path: Seq<char>)
    ensures
        summary_text(groups_selected(groups), groups_operations(groups)) == "Selected: "@ + decimal(
            groups_selected(groups),
        ) + " / "@ + decimal(groups_operations(groups)) + " operations"@,
        export_summary(groups, path) == "Exported "@ + decimal(groups_selected(groups)) + "/"@
            + decimal(groups_operations(groups)) + " operations to "@ + path,
        groups_selected(groups) <= groups_operations(groups),
{
    lemma_groups_selected_at_most(groups);
}

/// Restoring the selection of the current source deselects what is saved for it, and says so if that
/// leaves anything out; saving it keeps what is deselected. Without a source neither does anything.
/// Nothing else changes.
pub proof fn law_selection_goes_by_the_source(app: AppView, key: Seq<char>)
    ensures
        app.source_key is None ==> app.with_saved_selection() == app && app.with_selection_saved()
            == app,
        app.source_key == Some(key) ==> {
            let restored = app.with_saved_selection();
            let saved = app.with_selection_saved();
            let total = groups_operations(restored.groups);
            let selected = groups_selected(restored.groups);
            &&& restored.groups == app.selection_db.applied(key, app.groups)
            &&& same_but_status(
                restored,
                AppView { groups: app.selection_db.applied(key, app.groups), ..app },
            )
            &&& restored.status == if app.selection_db.deselected.contains_key(key) && selected
                < total {
                app.status + " — restored previous selection ("@ + decimal(selected) + "/"@
                    + decimal(total) + ")"@
            } else {
                app.status
            }
            &&& saved.selection_db == app.selection_db.recorded(key, app.groups)
            &&& saved.status == app.status
            &&& same_but_status(
                saved,
                AppView { selection_db: app.selection_db.recorded(key, app.groups), ..app },
            )
        },
{
}

} // verus!

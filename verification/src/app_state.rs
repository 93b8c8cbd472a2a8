//! The state of the editor, and what each of its actions makes of it.

use vstd::prelude::*;

use crate::codec::{
    load_in_format, loaded_file, parse_spec_string, parsed, serialize_spec, serialized, text_result,
    tree_result,
};
use crate::extract::{extract_groups, extracted, is_countable};
use crate::filter::{build_filtered_spec, filtered};
use crate::format::{detect_format, is_format_of, SpecFormat};
use crate::json::{Json, JsonView};
use crate::limits::DOCUMENT_LIMIT;
use crate::model::{
    count_operations, count_selected, groups_operations, groups_selected, groups_view,
    lemma_groups_selected_at_most, operation_total, set_all_groups, EndpointView, GroupView,
    PathGroup,
};
use crate::selection::{restored, restored_endpoint, SelectionDb, SelectionView};
use crate::text::{decimal, decimal_text, opt_string, with_tail};

verus! {

/// The editor.
pub struct App {
    pub spec: Option<Json>,
    pub source_format: SpecFormat,
    pub export_format: SpecFormat,
    pub groups: Vec<PathGroup>,
    pub status: String,
    pub loaded_file_name: Option<String>,
    pub search_query: String,
    pub prune_components: bool,
    /// The key identifying the current source (absolute path or URL).
    pub source_key: Option<String>,
    /// Persisted selection state across sessions.
    pub selection_db: SelectionDb,
    /// If set, an export writes directly to this path (no file dialog).
    pub force_export_path: Option<String>,
    /// Currently open info panel (endpoint path), if any.
    pub info_endpoint: Option<String>,
}

/// What an [`App`] holds.
pub struct AppView {
    pub spec: Option<JsonView>,
    pub source_format: SpecFormat,
    pub export_format: SpecFormat,
    pub groups: Seq<GroupView>,
    pub status: Seq<char>,
    pub loaded_file_name: Option<Seq<char>>,
    pub search_query: Seq<char>,
    pub prune_components: bool,
    pub source_key: Option<Seq<char>>,
    pub selection_db: SelectionView,
    pub force_export_path: Option<Seq<char>>,
    pub info_endpoint: Option<Seq<char>>,
}

/// What an optional document holds.
pub open spec fn opt_json(json: Option<Json>) -> Option<JsonView> {
    match json {
        Some(j) => Some(j@),
        None => None,
    }
}

impl View for App {
    type V = AppView;

    open spec fn view(&self) -> AppView {
        AppView {
            spec: opt_json(self.spec),
            source_format: self.source_format,
            export_format: self.export_format,
            groups: groups_view(self.groups@),
            status: self.status@,
            loaded_file_name: opt_string(self.loaded_file_name),
            search_query: self.search_query@,
            prune_components: self.prune_components,
            source_key: opt_string(self.source_key),
            selection_db: self.selection_db@,
            force_export_path: opt_string(self.force_export_path),
            info_endpoint: opt_string(self.info_endpoint),
        }
    }
}

/// The status after a document was loaded.
pub open spec fn loaded_status(name: Seq<char>, total: nat) -> Seq<char> {
    "Loaded "@ + name + " — "@ + decimal(total) + " operations"@
}

/// The status after a saved selection was restored.
pub open spec fn restored_status(status: Seq<char>, selected: nat, total: nat) -> Seq<char> {
    status + " — restored previous selection ("@ + decimal(selected) + "/"@ + decimal(total)
        + ")"@
}

/// The status after an export.
pub open spec fn exported_status(selected: nat, path: Seq<char>) -> Seq<char> {
    "Exported "@ + decimal(selected) + " operations to "@ + path
}

/// What the status bar says of the selection.
pub open spec fn summary_text(selected: nat, total: nat) -> Seq<char> {
    "Selected: "@ + decimal(selected) + " / "@ + decimal(total) + " operations"@
}

/// The state of the editor at its start.
pub open spec fn initial_app(db: SelectionView, force_export_path: Option<Seq<char>>) -> AppView {
    AppView {
        spec: None,
        source_format: SpecFormat::Yaml,
        export_format: SpecFormat::Yaml,
        groups: Seq::empty(),
        status: "Open an OpenAPI spec to get started."@,
        loaded_file_name: None,
        search_query: Seq::empty(),
        prune_components: true,
        source_key: None,
        selection_db: db,
        force_export_path,
        info_endpoint: None,
    }
}

impl AppView {
    /// The saved selection of the source is applied, and the status says so if it leaves anything
    /// out.
    pub open spec fn with_saved_selection(self) -> AppView {
        match self.source_key {
            Some(key) => if self.selection_db.deselected.contains_key(key) {
                let groups = self.selection_db.applied(key, self.groups);
                let selected = groups_selected(groups);
                let total = groups_operations(groups);
                AppView {
                    groups,
                    status: if selected < total {
                        restored_status(self.status, selected, total)
                    } else {
                        self.status
                    },
                    ..self
                }
            } else {
                self
            },
            None => self,
        }
    }

    /// A document was read, or was not.
    pub open spec fn with_document(
        self,
        document: Result<JsonView, Seq<char>>,
        format: SpecFormat,
        name: Seq<char>,
        key: Seq<char>,
    ) -> AppView {
        match document {
            Ok(tree) => match extracted(tree) {
                Ok(groups) => (AppView {
                    spec: Some(tree),
                    source_format: format,
                    export_format: format,
                    groups,
                    status: loaded_status(name, groups_operations(groups)),
                    loaded_file_name: Some(name),
                    search_query: Seq::empty(),
                    source_key: Some(key),
                    ..self
                }).with_saved_selection(),
                Err(error) => AppView { status: error, ..self },
            },
            Err(error) => AppView { status: error, ..self },
        }
    }

    /// A file was read, or was not.
    pub open spec fn with_file(
        self,
        loaded: Result<(JsonView, SpecFormat), Seq<char>>,
        name: Seq<char>,
        key: Seq<char>,
    ) -> AppView {
        match loaded {
            Ok((tree, format)) => self.with_document(Ok(tree), format, name, key),
            Err(error) => AppView { status: error, ..self },
        }
    }

    /// The selection of the source is saved.
    pub open spec fn with_selection_saved(self) -> AppView {
        match self.source_key {
            Some(key) => AppView {
                selection_db: self.selection_db.recorded(key, self.groups),
                ..self
            },
            None => self,
        }
    }

    /// The text that is exported, if a document is open.
    pub open spec fn export_text(self) -> Option<Result<Seq<char>, Seq<char>>> {
        match self.spec {
            Some(tree) => Some(
                serialized(filtered(tree, self.groups, self.prune_components), self.export_format),
            ),
            None => None,
        }
    }

    /// An export was written to a file, or was not.
    pub open spec fn with_export_written(
        self,
        outcome: Result<(), Seq<char>>,
        path: Seq<char>,
    ) -> AppView {
        match outcome {
            Ok(_) => AppView {
                status: exported_status(groups_selected(self.groups), path),
                ..self.with_selection_saved()
            },
            Err(error) => AppView { status: "Write error: "@ + error, ..self },
        }
    }
}

/// What the outcome of a file operation says.
pub open spec fn unit_result(r: Result<(), String>) -> Result<(), Seq<char>> {
    match r {
        Ok(_) => Ok(()),
        Err(error) => Err(error@),
    }
}

proof fn lemma_restored_total(
    endpoints: Seq<EndpointView>,
    saved: Set<Seq<char>>,
)
    ensures
        operation_total(
            endpoints.map_values(|ep: EndpointView| restored_endpoint(ep, saved)),
        ) == operation_total(endpoints),
    decreases endpoints.len(),
{
    let restore = |ep: EndpointView| restored_endpoint(ep, saved);
    if endpoints.len() > 0 {
        lemma_restored_total(endpoints.drop_last(), saved);
        assert(endpoints.map_values(restore).drop_last() =~= endpoints.drop_last().map_values(
            restore,
        ));
    }
}

/// Restoring a selection changes nothing in the number of operations.
pub proof fn lemma_restored_operations(groups: Seq<GroupView>, saved: Set<Seq<char>>)
    ensures
        groups_operations(restored(groups, saved)) == groups_operations(groups),
    decreases groups.len(),
{
    if groups.len() > 0 {
        lemma_restored_operations(groups.drop_last(), saved);
        lemma_restored_total(groups.last().endpoints, saved);
        assert(restored(groups, saved).drop_last() =~= restored(groups.drop_last(), saved));
    }
}

proof fn lemma_with_all_total(endpoints: Seq<EndpointView>, selected: bool)
    ensures
        operation_total(endpoints.map_values(|ep: EndpointView| ep.with_all(selected)))
            == operation_total(endpoints),
    decreases endpoints.len(),
{
    let change = |ep: EndpointView| ep.with_all(selected);
    if endpoints.len() > 0 {
        lemma_with_all_total(endpoints.drop_last(), selected);
        assert(endpoints.map_values(change).drop_last() =~= endpoints.drop_last().map_values(
            change,
        ));
    }
}

/// Selecting everything or nothing changes nothing in the number of operations.
proof fn lemma_with_all_operations(groups: Seq<GroupView>, selected: bool)
    ensures
        groups_operations(groups.map_values(|g: GroupView| g.with_all(selected)))
            == groups_operations(groups),
    decreases groups.len(),
{
    let change = |g: GroupView| g.with_all(selected);
    if groups.len() > 0 {
        lemma_with_all_operations(groups.drop_last(), selected);
        lemma_with_all_total(groups.last().endpoints, selected);
        assert(groups.map_values(change).drop_last() =~= groups.drop_last().map_values(change));
    }
}

impl App {
    /// The open document has distinct keys, the saved selections have one list for each source,
    /// and the operations can be counted.
    pub open spec fn well_formed(&self) -> bool {
        &&& self.spec matches Some(json) ==> json@.well_formed()
        &&& self.selection_db.well_formed()
        &&& is_countable(groups_view(self.groups@))
    }

    /// The editor at its start.
    pub fn new(selection_db: SelectionDb, force_export_path: Option<String>) -> (r: App)
        requires
            selection_db.well_formed(),
        ensures
            r.well_formed(),
            r@ == initial_app(selection_db@, opt_string(force_export_path)),
    {
        let r = App {
            spec: None,
            source_format: SpecFormat::Yaml,
            export_format: SpecFormat::Yaml,
            groups: Vec::new(),
            status: "Open an OpenAPI spec to get started.".to_owned(),
            loaded_file_name: None,
            search_query: String::new(),
            prune_components: true,
            source_key: None,
            selection_db,
            force_export_path,
            info_endpoint: None,
        };
        proof {
            assert(groups_view(r.groups@) =~= Seq::empty());
        }
        r
    }

    /// Apply saved selection from the database to the current groups.
    pub fn apply_saved_selection(&mut self)
        requires
            old(self).well_formed(),
        ensures
            final(self).well_formed(),
            final(self)@ == old(self)@.with_saved_selection(),
    {
        let ghost before = self@;
        let applied = match &self.source_key {
            Some(key) => self.selection_db.apply(key.as_str(), &mut self.groups),
            None => false,
        };
        if !applied {
            return ;
        }
        proof {
            let key = before.source_key->Some_0;
            let saved = before.selection_db.deselected[key].to_set();
            lemma_restored_operations(before.groups, saved);
            lemma_groups_selected_at_most(groups_view(self.groups@));
        }
        let total = count_operations(self.groups.as_slice());
        let selected = count_selected(self.groups.as_slice());
        if selected < total {
            let mut status = with_tail(
                self.status.as_str(),
                " — restored previous selection (",
            );
            status.append(decimal_text(selected).as_str());
            status.append("/");
            status.append(decimal_text(total).as_str());
            status.append(")");
            self.status = status;
        }
    }

    /// Save the current selection to the database. Whether there is a source to save it for is
    /// returned.
    pub fn save_selection(&mut self) -> (r: bool)
        requires
            old(self).well_formed(),
        ensures
            final(self).well_formed(),
            final(self)@ == old(self)@.with_selection_saved(),
            r == (old(self).source_key is Some),
    {
        match &self.source_key {
            Some(key) => {
                self.selection_db.record(key.as_str(), self.groups.as_slice());
                true
            },
            None => false,
        }
    }

    /// Take up a document that was read, or report why it was not.
    pub fn load_document(
        &mut self,
        document: Result<Json, String>,
        format: SpecFormat,
        name: &str,
        source_key: &str,
    )
        requires
            old(self).well_formed(),
            document matches Ok(json) ==> json@.well_formed(),
        ensures
            final(self).well_formed(),
            final(self)@ == old(self)@.with_document(
                tree_result(document),
                format,
                name@,
                source_key@,
            ),
    {
        match document {
            Ok(value) => match extract_groups(&value) {
                Ok(groups) => {
                    let total = count_operations(groups.as_slice());
                    let mut status = with_tail("Loaded ", name);
                    status.append(" — ");
                    status.append(decimal_text(total).as_str());
                    status.append(" operations");
                    self.status = status;
                    self.spec = Some(value);
                    self.source_format = format;
                    self.export_format = format;
                    self.groups = groups;
                    self.loaded_file_name = Some(name.to_owned());
                    self.search_query = String::new();
                    self.source_key = Some(source_key.to_owned());
                    self.apply_saved_selection();
                },
                Err(error) => {
                    self.status = error;
                },
            },
            Err(error) => {
                self.status = error;
            },
        }
    }

    /// Load a document from what was found in a file, in the format that its path tells, or report
    /// why it could not be read.
    pub fn load_from_path(
        &mut self,
        contents: Result<String, String>,
        path: &str,
        file_name: &str,
        source_key: &str,
    )
        requires
            old(self).well_formed(),
            contents matches Ok(text) ==> text@.len() < DOCUMENT_LIMIT,
        ensures
            final(self).well_formed(),
            exists|format: SpecFormat| #[trigger]
                is_format_of(path@, format) && final(self)@ == old(self)@.with_file(
                    loaded_file(text_result(contents), format),
                    file_name@,
                    source_key@,
                ),
    {
        let format = detect_format(path);
        self.load_in_format(contents, format, file_name, source_key);
        proof {
            assert(is_format_of(path@, format));
        }
    }

    /// Load a document from what was found in a file of the given format, or report why it could
    /// not be read.
    pub fn load_in_format(
        &mut self,
        contents: Result<String, String>,
        format: SpecFormat,
        file_name: &str,
        source_key: &str,
    )
        requires
            old(self).well_formed(),
            contents matches Ok(text) ==> text@.len() < DOCUMENT_LIMIT,
        ensures
            final(self).well_formed(),
            final(self)@ == old(self)@.with_file(
                loaded_file(text_result(contents), format),
                file_name@,
                source_key@,
            ),
    {
        match load_in_format(contents, format) {
            Ok((value, _)) => {
                self.load_document(Ok(value), format, file_name, source_key);
            },
            Err(error) => {
                self.status = error;
            },
        }
    }

    /// Load a document from its text.
    pub fn load_from_string(
        &mut self,
        contents: &str,
        name: &str,
        source_key: &str,
        format: SpecFormat,
    )
        requires
            old(self).well_formed(),
            contents@.len() < DOCUMENT_LIMIT,
        ensures
            final(self).well_formed(),
            final(self)@ == old(self)@.with_document(
                parsed(contents@, format),
                format,
                name@,
                source_key@,
            ),
    {
        let document = parse_spec_string(contents, format);
        self.load_document(document, format, name, source_key);
    }

    /// Select every operation, or none.
    pub fn select_all(&mut self, selected: bool)
        requires
            old(self).well_formed(),
        ensures
            final(self).well_formed(),
            final(self)@ == (AppView {
                groups: old(self)@.groups.map_values(|g: GroupView| g.with_all(selected)),
                ..old(self)@
            }),
    {
        proof {
            lemma_with_all_operations(groups_view(self.groups@), selected);
        }
        set_all_groups(&mut self.groups, selected);
    }

    /// What the status bar says of the selection. `None` if there are no groups.
    pub fn selection_summary(&self) -> (r: Option<String>)
        requires
            self.well_formed(),
        ensures
            match r {
                Some(text) => self@.groups.len() > 0 && text@ == summary_text(
                    groups_selected(self@.groups),
                    groups_operations(self@.groups),
                ),
                None => self@.groups.len() == 0,
            },
    {
        if self.groups.len() == 0 {
            return None;
        }
        proof {
            lemma_groups_selected_at_most(groups_view(self.groups@));
        }
        let selected = count_selected(self.groups.as_slice());
        let total = count_operations(self.groups.as_slice());
        let mut text = with_tail("Selected: ", decimal_text(selected).as_str());
        text.append(" / ");
        text.append(decimal_text(total).as_str());
        text.append(" operations");
        Some(text)
    }

    /// The text to export, or what is reported when it cannot be written. `None` if no document
    /// is open.
    pub fn prepare_export(&self) -> (r: Option<Result<String, String>>)
        requires
            self.well_formed(),
        ensures
            match r {
                Some(result) => self@.export_text() == Some(text_result(result)),
                None => self@.export_text() is None,
            },
    {
        match &self.spec {
            Some(spec) => {
                let out = build_filtered_spec(spec, self.groups.as_slice(), self.prune_components);
                Some(serialize_spec(&out, self.export_format))
            },
            None => None,
        }
    }

    /// The name that is proposed for an export.
    pub fn default_export_name(&self) -> (r: String)
        ensures
            r@ == "filtered."@ + self.export_format.extension_text(),
    {
        with_tail("filtered.", self.export_format.extension())
    }

    /// Report that an export could not be written as text.
    pub fn report(&mut self, status: String)
        requires
            old(self).well_formed(),
        ensures
            final(self).well_formed(),
            final(self)@ == (AppView { status: status@, ..old(self)@ }),
    {
        self.status = status;
    }

    /// Take note of the outcome of writing an export to a file. Whether the database is to be
    /// written is returned.
    pub fn finish_export(&mut self, outcome: Result<(), String>, path: &str) -> (r: bool)
        requires
            old(self).well_formed(),
        ensures
            final(self).well_formed(),
            final(self)@ == old(self)@.with_export_written(unit_result(outcome), path@),
            r == (outcome is Ok && old(self).source_key is Some),
    {
        match outcome {
            Ok(_) => {
                let saved = self.save_selection();
                proof {
                    lemma_groups_selected_at_most(groups_view(self.groups@));
                }
                let selected = count_selected(self.groups.as_slice());
                let mut status = with_tail("Exported ", decimal_text(selected).as_str());
                status.append(" operations to ");
                status.append(path);
                self.status = status;
                saved
            },
            Err(error) => {
                self.status = with_tail("Write error: ", error.as_str());
                false
            },
        }
    }
}

} // verus!

//! How a command line is read, and what an export without a window writes.

use vstd::prelude::*;

use crate::app_state::AppView;
use crate::cli::{
    cli_groups, flag_of, is_cli_export, kept_after_export, missing_text, no_arguments, CliExport,
    CliView, Flag, InvocationView, SourceView,
};
use crate::codec::{serialized, text_result};
use crate::drift_laws::law_report_names_what_has_changed;
use crate::extract::extracted;
use crate::filter::filtered;
use crate::filter_laws::law_export_holds_the_selected_operations;
use crate::format::SpecFormat;
use crate::json::JsonView;
use crate::model::{groups_view, GroupView};
use crate::places::value_at3;
use crate::prune::pruned;
use crate::selection::SelectionView;
use crate::selection_laws::{law_restoring_deselects_what_is_saved, names_operation};
use crate::session_laws::{
    law_export_without_window_repeats_itself, law_export_without_window_repeats_the_export,
    law_unchanged_document_shows_no_drift, lemma_restored_same, same_operations,
};
use crate::text::texts;

verus! {

/// What becomes of a whole command line.
pub open spec fn reading(words: Seq<Seq<char>>) -> InvocationView {
    no_arguments().followed_by(words)
}

proof fn lemma_followed_by(c: CliView, a: Seq<Seq<char>>, b: Seq<Seq<char>>)
    ensures
        c.followed_by(a) matches InvocationView::Run(d) ==> c.followed_by(a + b) == d.followed_by(
            b,
        ),
        c.followed_by(a) is Help ==> c.followed_by(a + b) is Help,
    decreases a.len(),
{
    if a.len() == 0 {
        assert(a + b =~= b);
    } else {
        assert((a + b)[0] == a[0]);
        match flag_of(a[0]) {
            Some(flag) => {
                if a.len() > 1 {
                    assert((a + b)[1] == a[1]);
                    assert((a + b).skip(2) =~= a.skip(2) + b);
                    lemma_followed_by(c.with_value(flag, a[1]), a.skip(2), b);
                }
            },
            None => {
                assert((a + b).skip(1) =~= a.skip(1) + b);
                lemma_followed_by(CliView { input: Some(a[0]), ..c }, a.skip(1), b);
            },
        }
    }
}

/// The word has a meaning of its own on the command line.
pub open spec fn is_option(word: Seq<char>) -> bool {
    ||| word == "--export"@
    ||| word == "--db"@
    ||| word == "--user"@
    ||| word == "--password"@
    ||| word == "--force-export-path"@
    ||| word == "--help"@
    ||| word == "-h"@
}

proof fn lemma_options_differ()
    ensures
        flag_of("--export"@) == Some(Flag::Export),
        flag_of("--db"@) == Some(Flag::Db),
        flag_of("--user"@) == Some(Flag::User),
        flag_of("--password"@) == Some(Flag::Password),
        flag_of("--force-export-path"@) == Some(Flag::ForceExportPath),
        flag_of("--help"@) is None,
        flag_of("-h"@) is None,
{
    reveal_strlit("--export");
    reveal_strlit("--db");
    reveal_strlit("--user");
    reveal_strlit("--password");
    reveal_strlit("--force-export-path");
    reveal_strlit("--help");
    reveal_strlit("-h");
    assert("--export"@.len() == 8 && "--db"@.len() == 4 && "--user"@.len() == 6 && "--password"@.len()
        == 10 && "--force-export-path"@.len() == 19 && "--help"@.len() == 6 && "-h"@.len() == 2);
    assert("--user"@[2] == 'u' && "--help"@[2] == 'h');
}

/// A command line is read from its front: behind words that can be followed, an option with a value
/// sets that value, over an earlier one; any other word is the input, over an earlier one; a word
/// that asks for help does so whatever follows; and an option at the very end lacks its value.
/// Without words nothing is set.
pub proof fn law_command_line_is_read_word_by_word(
    words: Seq<Seq<char>>,
    args: CliView,
    value: Seq<char>,
    word: Seq<char>,
    more: Seq<Seq<char>>,
)
    requires
        reading(words) == InvocationView::Run(args),
    ensures
        reading(Seq::empty()) == InvocationView::Run(
            CliView {
                input: None,
                export_path: None,
                db_path: None,
                user: None,
                password: None,
                force_export_path: None,
            },
        ),
        reading(words + seq!["--export"@, value]) == InvocationView::Run(
            CliView { export_path: Some(value), ..args },
        ),
        reading(words + seq!["--db"@, value]) == InvocationView::Run(
            CliView { db_path: Some(value), ..args },
        ),
        reading(words + seq!["--user"@, value]) == InvocationView::Run(
            CliView { user: Some(value), ..args },
        ),
        reading(words + seq!["--password"@, value]) == InvocationView::Run(
            CliView { password: Some(value), ..args },
        ),
        reading(words + seq!["--force-export-path"@, value]) == InvocationView::Run(
            CliView { force_export_path: Some(value), ..args },
        ),
        !is_option(word) ==> reading(words + seq![word]) == InvocationView::Run(
            CliView { input: Some(word), ..args },
        ),
        reading((words + seq!["--help"@]) + more) is Help,
        reading((words + seq!["-h"@]) + more) is Help,
        reading(words + seq!["--export"@]) == InvocationView::Missing(Flag::Export),
        reading(words + seq!["--db"@]) == InvocationView::Missing(Flag::Db),
        reading(words + seq!["--user"@]) == InvocationView::Missing(Flag::User),
        reading(words + seq!["--password"@]) == InvocationView::Missing(Flag::Password),
        reading(words + seq!["--force-export-path"@]) == InvocationView::Missing(
            Flag::ForceExportPath,
        ),
{
    lemma_options_differ();
    lemma_one_option(words, args, "--export"@, Flag::Export, value);
    lemma_one_option(words, args, "--db"@, Flag::Db, value);
    lemma_one_option(words, args, "--user"@, Flag::User, value);
    lemma_one_option(words, args, "--password"@, Flag::Password, value);
    lemma_one_option(words, args, "--force-export-path"@, Flag::ForceExportPath, value);
    let start = no_arguments();
    lemma_followed_by(start, words, seq![word]);
    lemma_followed_by(start, words, seq!["--help"@]);
    lemma_followed_by(start, words, seq!["-h"@]);
    lemma_followed_by(start, words + seq!["--help"@], more);
    lemma_followed_by(start, words + seq!["-h"@], more);
    assert(seq![word].skip(1) =~= Seq::empty());
    reveal_with_fuel(CliView::followed_by, 2);
}

proof fn lemma_one_option(
    words: Seq<Seq<char>>,
    args: CliView,
    option: Seq<char>,
    flag: Flag,
    value: Seq<char>,
)
    requires
        reading(words) == InvocationView::Run(args),
        flag_of(option) == Some(flag),
    ensures
        reading(words + seq![option, value]) == InvocationView::Run(args.with_value(flag, value)),
        reading(words + seq![option]) == InvocationView::Missing(flag),
{
    let start = no_arguments();
    lemma_followed_by(start, words, seq![option, value]);
    lemma_followed_by(start, words, seq![option]);
    assert(seq![option, value].skip(2) =~= Seq::empty());
    reveal_with_fuel(CliView::followed_by, 2);
}

/// The text is made of the front and something behind it.
pub open spec fn goes_on_from(text: Seq<char>, front: Seq<char>) -> bool {
    exists|rest: Seq<char>| text == #[trigger] (front + rest)
}

proof fn lemma_goes_on_from(text: Seq<char>, front: Seq<char>)
    ensures
        goes_on_from(text, front) <==> front.is_prefix_of(text),
{
    if front.is_prefix_of(text) {
        let rest = text.skip(front.len() as int);
        assert(text =~= front + rest);
    }
    if goes_on_from(text, front) {
        let rest = choose|rest: Seq<char>| text == #[trigger] (front + rest);
        assert(text.subrange(0, front.len() as int) =~= front);
    }
}

/// The document comes from a URL exactly if the input begins with `http://` or `https://`, and then
/// with the user and the password, if both are given; any other input is a file. An export is
/// refused exactly if there is no input.
pub proof fn law_input_is_a_url_or_a_file(args: CliView)
    ensures
        args.input matches Some(input) ==> {
            let is_url = goes_on_from(input, "http://"@) || goes_on_from(input, "https://"@);
            &&& is_url ==> args.source() == SourceView::Url(
                input,
                if args.user is Some && args.password is Some {
                    Some((args.user->Some_0, args.password->Some_0))
                } else {
                    None
                },
            )
            &&& !is_url ==> args.source() == SourceView::File(input)
            &&& args.refusal() is None
        },
        args.input is None ==> {
            &&& args.source() == SourceView::Nowhere
            &&& args.refusal() is Some <==> args.export_path is Some
        },
{
    match args.input {
        Some(input) => {
            lemma_goes_on_from(input, "http://"@);
            lemma_goes_on_from(input, "https://"@);
        },
        None => {},
    }
}

/// Without a saved selection no export is made; with one, be it that only the operations that were
/// known are saved, it is made or the document is refused.
pub proof fn law_export_without_window_needs_a_selection(
    r: Result<Option<CliExport>, String>,
    db: SelectionView,
    key: Seq<char>,
    tree: JsonView,
    format: SpecFormat,
)
    requires
        is_cli_export(r, db, key, tree, format),
    ensures
        r matches Ok(None) <==> !db.deselected.contains_key(key) && !db.all_paths.contains_key(key),
        r matches Err(error) ==> error@ == "No 'paths' object found in spec."@,
        r is Err <==> (db.deselected.contains_key(key) || db.all_paths.contains_key(key))
            && extracted(tree) is Err,
{
}

/// An export without a window writes, in its format, the document with exactly the operations that
/// are not saved as deselected, without the components that nothing refers to any more.
pub proof fn law_export_without_window_follows_the_selection(
    export: CliExport,
    db: SelectionView,
    key: Seq<char>,
    tree: JsonView,
    format: SpecFormat,
    g: int,
    e: int,
    o: int,
)
    requires
        tree.well_formed(),
        is_cli_export(Ok(Some(export)), db, key, tree, format),
        0 <= g < extracted(tree)->Ok_0.len(),
        0 <= e < extracted(tree)->Ok_0[g].endpoints.len(),
        0 <= o < extracted(tree)->Ok_0[g].endpoints[e].operations.len(),
        extracted(tree)->Ok_0[g].endpoints[e].operations[o].selected,
    ensures
        ({
            let path = extracted(tree)->Ok_0[g].endpoints[e].path;
            let method = extracted(tree)->Ok_0[g].endpoints[e].operations[o].method;
            let out = pruned(filtered(tree, groups_view(export.groups@), false));
            let deselected = db.deselected.contains_key(key) && db.deselected[key].contains(
                method + " "@ + path,
            );
            &&& text_result(export.output) == serialized(out, format)
            &&& groups_view(export.groups@)[g].endpoints[e].operations[o].selected == !deselected
            &&& value_at3(out, "paths"@, path, method) == if deselected {
                None
            } else {
                value_at3(tree, "paths"@, path, method)
            }
        }),
{
    let found = extracted(tree)->Ok_0;
    let groups = groups_view(export.groups@);
    law_restoring_deselects_what_is_saved(db, key, found, g, e, o);
    if db.deselected.contains_key(key) {
        lemma_restored_same(found, db.deselected[key].to_set());
    } else {
        assert(same_operations(found, found));
    }
    law_export_holds_the_selected_operations(tree, groups, true, g, e, o);
}

/// After an export from the window, with unused components removed, an export without a window of
/// the same document in the same format writes the same text, works on the same selection and
/// reports no change.
pub proof fn law_exports_with_and_without_window_agree(
    app: AppView,
    path: Seq<char>,
    r: Result<Option<CliExport>, String>,
)
    requires
        app.coherent(),
        app.spec matches Some(tree) && tree.well_formed(),
        app.source_key is Some,
        app.prune_components,
        is_cli_export(
            r,
            app.with_export_written(Ok(()), path).selection_db,
            app.source_key->Some_0,
            app.spec->Some_0,
            app.export_format,
        ),
    ensures
        r matches Ok(Some(export)) && {
            &&& app.export_text() == Some(text_result(export.output))
            &&& groups_view(export.groups@) == app.groups
            &&& export.report.removed@.len() == 0
            &&& export.report.removed_selected@.len() == 0
            &&& export.report.new_ops@.len() == 0
        },
{
    law_export_without_window_repeats_the_export(app, path);
    let tree = app.spec->Some_0;
    let export = r->Ok_0->Some_0;
    law_unchanged_document_shows_no_drift(
        app.selection_db,
        app.source_key->Some_0,
        app.groups,
        extracted(tree)->Ok_0,
        export.report,
    );
}

/// An export without a window that was written can be repeated: the next one of the same document
/// works on the same selection. One that was not written leaves what was saved.
pub proof fn law_written_exports_can_be_repeated(
    db: SelectionView,
    key: Seq<char>,
    tree: JsonView,
    groups: Seq<GroupView>,
    error: Seq<char>,
)
    requires
        tree.well_formed(),
        cli_groups(db, key, tree) == Ok::<Option<Seq<GroupView>>, Seq<char>>(Some(groups)),
    ensures
        cli_groups(kept_after_export(db, key, groups, Ok(())), key, tree) == Ok::<
            Option<Seq<GroupView>>,
            Seq<char>,
        >(Some(groups)),
        kept_after_export(db, key, groups, Ok(())).all_paths.contains_key(key),
        kept_after_export(db, key, groups, Err(error)) == db,
{
    law_export_without_window_repeats_itself(db, key, tree, groups);
}

/// An export without a window reports exactly what has changed since the selection was saved: what
/// was deselected and is gone, what was known besides that and is gone, and what has come; the last
/// two only where it is saved what was known.
pub proof fn law_export_without_window_reports_changes(
    export: CliExport,
    db: SelectionView,
    key: Seq<char>,
    tree: JsonView,
    format: SpecFormat,
    text: Seq<char>,
)
    requires
        is_cli_export(Ok(Some(export)), db, key, tree, format),
    ensures
        ({
            let there = names_operation(extracted(tree)->Ok_0, text, false);
            let deselected = db.deselected.contains_key(key) && db.deselected[key].contains(text);
            let known = db.all_paths.contains_key(key) && db.all_paths[key].contains(text);
            &&& texts(export.report.removed@).contains(text) <==> deselected && !there
            &&& texts(export.report.removed_selected@).contains(text) <==> known && !deselected
                && !there
            &&& texts(export.report.new_ops@).contains(text) <==> db.all_paths.contains_key(key)
                && there && !known
        }),
{
    law_report_names_what_has_changed(
        export.report,
        db.deselected_in(key),
        db.known_in(key),
        extracted(tree)->Ok_0,
        text,
    );
    if !db.all_paths.contains_key(key) {
        assert(texts(export.report.removed_selected@).len() == 0);
        assert(texts(export.report.new_ops@).len() == 0);
    }
}

/// What is saved for a source is what stands under its key.
pub proof fn law_saved_lists_stand_under_the_key(db: SelectionView, key: Seq<char>)
    ensures
        db.knows(key) <==> db.deselected.contains_key(key) || db.all_paths.contains_key(key),
        db.deselected.contains_key(key) ==> db.deselected_in(key) == db.deselected[key],
        !db.deselected.contains_key(key) ==> db.deselected_in(key).len() == 0,
        db.all_paths.contains_key(key) ==> db.known_in(key) == Some(db.all_paths[key]),
        !db.all_paths.contains_key(key) ==> db.known_in(key) is None,
{
}

/// An option that lacks its value is named in what is reported, behind `Error: `.
pub proof fn law_missing_value_is_reported_with_the_option(word: Seq<char>, flag: Flag)
    requires
        flag_of(word) == Some(flag),
    ensures
        ("Error: "@ + word + " requires "@).is_prefix_of(missing_text(flag)),
{
    reveal_strlit("Error: ");
    reveal_strlit(" requires ");
    reveal_strlit("--export");
    reveal_strlit("--db");
    reveal_strlit("--user");
    reveal_strlit("--password");
    reveal_strlit("--force-export-path");
    reveal_strlit("Error: --export requires an output file path");
    reveal_strlit("Error: --db requires a file path");
    reveal_strlit("Error: --user requires a username");
    reveal_strlit("Error: --password requires a password");
    reveal_strlit("Error: --force-export-path requires a file path");
    let start = "Error: "@ + word + " requires "@;
    assert(start =~= missing_text(flag).take(start.len() as int));
}

} // verus!

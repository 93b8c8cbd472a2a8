//! How names, paths and addresses tell the format of a document, said of their characters.

use vstd::prelude::*;

use crate::download::{credentials, downloaded, ResponseView};
use crate::format::{
    before_query, behind_separator, format_of_extension, format_of_name, format_of_url,
    is_drive_letter, is_format_of, is_separator, last_name,
    law_extension_tells_its_format, posix_name, windows_name, SpecFormat,
};
use crate::storage::{storage_parts, Platform, Variables};
use crate::text::{find_from, lemma_find_from};
use crate::text_laws::law_text_behind_the_last;

verus! {

/// The text is something with `.json` behind it.
pub open spec fn ends_in_json(text: Seq<char>) -> bool {
    exists|stem: Seq<char>| text == #[trigger] (stem + ".json"@)
}

proof fn lemma_ends_in_json(text: Seq<char>)
    ensures
        ends_in_json(text) <==> ".json"@.is_suffix_of(text),
{
    let end = ".json"@;
    if end.is_suffix_of(text) {
        let stem = text.take(text.len() - end.len());
        assert(text =~= stem + end);
    }
    if ends_in_json(text) {
        let stem = choose|stem: Seq<char>| text == #[trigger] (stem + end);
        assert(text.subrange(text.len() - end.len(), text.len() as int) =~= end);
    }
}

/// A file is JSON exactly if its name is more than `.json` and ends in that; by its extension exactly
/// if that is `json`.
pub proof fn law_json_files_end_in_json(name: Seq<char>)
    ensures
        format_of_name(name) == SpecFormat::Json <==> ends_in_json(name) && name != ".json"@,
        format_of_extension(Some(name)) == SpecFormat::Json <==> name == "json"@,
        format_of_extension(None) == SpecFormat::Yaml,
{
    reveal_strlit(".json");
    lemma_ends_in_json(name);
    if name.len() == 5 && ends_in_json(name) {
        let stem = choose|stem: Seq<char>| name == #[trigger] (stem + ".json"@);
        assert(stem =~= Seq::empty());
        assert(name =~= ".json"@);
    }
}

proof fn lemma_behind(front: Seq<char>, c: char, name: Seq<char>, backslash: bool)
    requires
        is_separator(c, backslash),
        forall|i: int| 0 <= i < name.len() ==> !is_separator(#[trigger] name[i], backslash),
    ensures
        behind_separator(front.push(c) + name, backslash) == name,
        behind_separator(name, backslash) == name,
    decreases name.len(),
{
    let whole = front.push(c) + name;
    if name.len() == 0 {
        assert(whole.last() == c);
        assert(name =~= Seq::empty());
    } else {
        let shorter = name.drop_last();
        assert forall|i: int| 0 <= i < shorter.len() implies !is_separator(
            #[trigger] shorter[i],
            backslash,
        ) by {
            assert(name[i] == shorter[i]);
        }
        lemma_behind(front, c, shorter, backslash);
        assert(!is_separator(name[name.len() - 1], backslash));
        assert(whole.drop_last() =~= front.push(c) + shorter);
        assert(shorter.push(name.last()) =~= name);
    }
}

/// The file name of a path is what stands behind its last separator; separators and single dots at
/// its end do not count.
pub proof fn law_file_name_is_the_last_part(
    front: Seq<char>,
    c: char,
    name: Seq<char>,
    backslash: bool,
)
    requires
        is_separator(c, backslash),
        name.len() > 0,
        name != "."@,
        forall|i: int| 0 <= i < name.len() ==> !is_separator(#[trigger] name[i], backslash),
    ensures
        last_name(name, backslash) == name,
        last_name(front.push(c) + name, backslash) == name,
        last_name(front.push(c), backslash) == last_name(front, backslash),
        last_name(front.push(c).push('.'), backslash) == last_name(front, backslash),
        last_name(Seq::empty(), backslash) == Seq::<char>::empty(),
{
    reveal_strlit(".");
    lemma_behind(front, c, name, backslash);
    assert(!is_separator(name[name.len() - 1], backslash));
    assert((front.push(c) + name).last() == name[name.len() - 1]);
    assert(front.push(c).drop_last() =~= front);
    let dotted = front.push(c).push('.');
    assert(dotted =~= front.push(c) + seq!['.']);
    assert forall|i: int| 0 <= i < seq!['.'].len() implies !is_separator(
        #[trigger] seq!['.'][i],
        backslash,
    ) by {}
    lemma_behind(front, c, seq!['.'], backslash);
    assert("."@ =~= seq!['.']);
    assert(dotted.drop_last() =~= front.push(c));
    reveal_with_fuel(last_name, 3);
}

/// One kind of platform divides at slashes; the other at backslashes too, behind a drive.
pub proof fn law_platforms_divide_paths(path: Seq<char>, letter: char)
    requires
        is_drive_letter(letter),
    ensures
        posix_name(path) == last_name(path, false),
        windows_name(seq![letter, ':'] + path) == last_name(path, true),
        !path.contains(':') ==> windows_name(path) == last_name(path, true),
        is_separator('/', false) && !is_separator('\\', false),
        is_separator('/', true) && is_separator('\\', true),
        is_drive_letter('C') && is_drive_letter('c') && !is_drive_letter('1'),
{
    assert((seq![letter, ':'] + path).skip(2) =~= path);
    if path.len() >= 2 && path[1] == ':' {
        assert(path.contains(':'));
    }
}

/// The document of a URL is JSON exactly if its address, up to a query or a fragment, ends in
/// `.json`.
pub proof fn law_urls_tell_the_format_by_their_path(address: Seq<char>, more: Seq<char>)
    requires
        !address.contains('?'),
        !address.contains('#'),
        more.len() == 0 || more[0] == '?' || more[0] == '#',
    ensures
        format_of_url(address + more) == SpecFormat::Json <==> ends_in_json(address),
{
    let url = address + more;
    let n = address.len() as int;
    lemma_ends_in_json(address);
    lemma_find_from(url, '?', 0);
    lemma_find_from(url, '#', 0);
    let q = find_from(url, '?', 0);
    let f = find_from(url, '#', 0);
    if q < n {
        assert(address[q] == '?');
    }
    if f < n {
        assert(address[f] == '#');
    }
    if more.len() > 0 {
        assert(url[n] == more[0]);
        if more[0] == '?' {
            assert(q == n);
        } else {
            assert(f == n);
        }
    }
    assert(before_query(url) =~= address);
}

/// A document that was fetched has the contents of the response and is named by what stands behind
/// the last slash of its address, or by all of an address without one; otherwise it is said what
/// failed.
pub proof fn law_fetched_documents_are_named_by_their_address(
    front: Seq<char>,
    name: Seq<char>,
    text: Seq<char>,
)
    requires
        !name.contains('/'),
    ensures
        ({
            let url = front.push('/') + name;
            &&& downloaded(url, ResponseView::Body(text)) == Ok::<
                (Seq<char>, Seq<char>, SpecFormat),
                Seq<char>,
            >((text, name, format_of_url(url)))
            &&& downloaded(name, ResponseView::Body(text)) == Ok::<
                (Seq<char>, Seq<char>, SpecFormat),
                Seq<char>,
            >((text, name, format_of_url(name)))
            &&& downloaded(url, ResponseView::Unreadable(text)) == Err::<
                (Seq<char>, Seq<char>, SpecFormat),
                Seq<char>,
            >("Failed to read response body: "@ + text)
            &&& downloaded(url, ResponseView::Failed(text)) == Err::<
                (Seq<char>, Seq<char>, SpecFormat),
                Seq<char>,
            >("HTTP request failed: "@ + text)
        }),
{
    law_text_behind_the_last(front, '/', name);
}

/// What is sent for a user and a password holds both, with a colon between them.
pub proof fn law_credentials_hold_user_and_password(user: Seq<char>, password: Seq<char>)
    ensures
        vstd::utf8::valid_utf8(credentials(user, password)),
        vstd::utf8::decode_utf8(credentials(user, password)) == user + ":"@ + password,
{
    vstd::utf8::encode_utf8_valid_utf8(user + ":"@ + password);
    vstd::utf8::encode_utf8_decode_utf8(user + ":"@ + password);
}

/// The home directory: one that is set comes before the profile, and that before the directory one
/// is in.
pub open spec fn home(vars: Variables) -> Seq<char> {
    if vars.home is Some {
        vars.home->Some_0@
    } else if vars.userprofile is Some {
        vars.userprofile->Some_0@
    } else {
        "."@
    }
}

/// The database is the file that was asked for, or one in a directory of its own where the platform
/// keeps such files.
pub proof fn law_database_is_kept_where_the_platform_says(
    custom: Seq<char>,
    vars: Variables,
    platform: Platform,
)
    ensures
        storage_parts(Some(custom), platform, vars) == seq![custom],
        storage_parts(None, Platform::MacOs, vars) == seq![
            home(vars),
            "Library/Application Support"@,
            "openapi-edit"@,
            "selections.json"@,
        ],
        storage_parts(None, Platform::Windows, vars) == seq![
            if vars.appdata is Some {
                vars.appdata->Some_0@
            } else {
                home(vars)
            },
            "openapi-edit"@,
            "selections.json"@,
        ],
        vars.xdg_config_home matches Some(dir) ==> storage_parts(None, Platform::Other, vars)
            == seq![dir@, "openapi-edit"@, "selections.json"@],
        vars.xdg_config_home is None ==> storage_parts(None, Platform::Other, vars) == seq![
            home(vars),
            ".config"@,
            "openapi-edit"@,
            "selections.json"@,
        ],
{
}

/// A file with the name that is proposed for an export is read in the format of the export.
pub proof fn law_proposed_names_tell_the_format(format: SpecFormat, detected: SpecFormat)
    requires
        is_format_of("filtered."@ + format.extension_text(), detected),
    ensures
        detected == format,
{
    reveal_strlit("filtered");
    reveal_strlit("filtered.");
    reveal_strlit(".");
    let front = "filtered"@;
    assert("filtered."@ =~= front + "."@);
    law_extension_tells_its_format(front, format, detected);
}

} // verus!

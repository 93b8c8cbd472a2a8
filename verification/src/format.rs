//! The two notations in which a document is written.

use vstd::prelude::*;

use crate::text::{
    after_last, chars_of, find_char, find_from, finishes_with, occurs_in, opt_string, opt_text,
    same_text,
};

verus! {

/// The notation of a document.
#[derive(Clone, Copy, PartialEq, Eq, Structural)]
pub enum SpecFormat {
    Yaml,
    Json,
}

impl SpecFormat {
    /// The characters of [`SpecFormat::label`].
    pub open spec fn label_text(self) -> Seq<char> {
        match self {
            SpecFormat::Yaml => "YAML"@,
            SpecFormat::Json => "JSON"@,
        }
    }

    /// The characters of [`SpecFormat::extension`].
    pub open spec fn extension_text(self) -> Seq<char> {
        match self {
            SpecFormat::Yaml => "yaml"@,
            SpecFormat::Json => "json"@,
        }
    }

    /// The name that is shown for the format.
    pub fn label(self) -> (r: &'static str)
        ensures
            r@ == self.label_text(),
    {
        match self {
            Self::Yaml => "YAML",
            Self::Json => "JSON",
        }
    }

    /// The file extension of the format, without the dot.
    pub fn extension(self) -> (r: &'static str)
        ensures
            r@ == self.extension_text(),
    {
        match self {
            Self::Yaml => "yaml",
            Self::Json => "json",
        }
    }
}

/// The format that a file extension stands for: `json` is JSON, anything else is YAML.
pub open spec fn format_of_extension(extension: Option<Seq<char>>) -> SpecFormat {
    if extension == Some("json"@) {
        SpecFormat::Json
    } else {
        SpecFormat::Yaml
    }
}

/// The URL up to where its path ends: without a query and a fragment.
pub open spec fn before_query(url: Seq<char>) -> Seq<char> {
    let query = find_from(url, '?', 0);
    let fragment = find_from(url, '#', 0);
    url.take(
        if query < fragment {
            query
        } else {
            fragment
        },
    )
}

/// The format of a document at the given address, by the end of its path.
pub open spec fn format_of_url(url: Seq<char>) -> SpecFormat {
    if ".json"@.is_suffix_of(before_query(url)) {
        SpecFormat::Json
    } else {
        SpecFormat::Yaml
    }
}

/// The text is a file name, or a part of one, on every platform.
pub open spec fn is_plain_name(name: Seq<char>) -> bool {
    &&& name.len() > 0
    &&& forall|i: int|
        0 <= i < name.len() ==> (#[trigger] name[i]) != '/' && name[i] != '\\' && name[i] != ':'
}

/// The character stands between the parts of a path: a slash, and where `backslash` says so a
/// backslash.
pub open spec fn is_separator(c: char, backslash: bool) -> bool {
    c == '/' || (backslash && c == '\\')
}

/// The path begins like that of a network share.
pub open spec fn begins_like_share(path: Seq<char>) -> bool {
    path.len() >= 2 && is_separator(path[0], true) && is_separator(path[1], true)
}

/// The text behind the last separator, or the whole text if there is none.
pub open spec fn behind_separator(path: Seq<char>, backslash: bool) -> Seq<char>
    decreases path.len(),
{
    if path.len() == 0 || is_separator(path.last(), backslash) {
        Seq::empty()
    } else {
        behind_separator(path.drop_last(), backslash).push(path.last())
    }
}

/// The last part of a path. Empty parts and parts that are a single dot do not count.
pub open spec fn last_name(path: Seq<char>, backslash: bool) -> Seq<char>
    decreases path.len(),
{
    if path.len() == 0 {
        Seq::empty()
    } else if is_separator(path.last(), backslash) || behind_separator(path, backslash) == "."@ {
        last_name(path.drop_last(), backslash)
    } else {
        behind_separator(path, backslash)
    }
}

/// The character is the letter of a drive.
pub open spec fn is_drive_letter(c: char) -> bool {
    'a' <= c <= 'z' || 'A' <= c <= 'Z'
}

/// The path without a drive in front of it.
pub open spec fn without_drive(path: Seq<char>) -> Seq<char> {
    if path.len() >= 2 && is_drive_letter(path[0]) && path[1] == ':' {
        path.skip(2)
    } else {
        path
    }
}

/// The file name of a path where parts stand between slashes.
pub open spec fn posix_name(path: Seq<char>) -> Seq<char> {
    last_name(path, false)
}

/// The file name of a path, other than that of a network share, where parts stand between slashes
/// or backslashes and a drive may stand in front.
pub open spec fn windows_name(path: Seq<char>) -> Seq<char> {
    last_name(without_drive(path), true)
}

/// The extension of a file name: what stands behind its last dot, unless that is its first
/// character. Two dots are no file name.
pub open spec fn extension_of(name: Seq<char>) -> Option<Seq<char>> {
    let tail = after_last(name, '.');
    if name != ".."@ && tail.len() + 1 < name.len() {
        Some(tail)
    } else {
        None
    }
}

/// `std::path::Path::extension`: the part of the file name behind its last dot. What a file name is
/// differs between platforms. Claimed is what holds on all of them: but for the paths of network
/// shares, the extension is that of the file name as the one or the other kind of platform divides
/// the path; and an extension stands in the path behind a dot and holds none.
#[verifier::external_body]
fn path_extension(path: &str) -> (r: Option<String>)
    ensures
        begins_like_share(path@) || opt_string(r) == extension_of(posix_name(path@)) || opt_string(
            r,
        ) == extension_of(windows_name(path@)),
        r matches Some(extension) ==> !extension@.contains('.') && occurs_in(
            "."@ + extension@,
            path@,
        ),
{
    match std::path::Path::new(path).extension() {
        Some(extension) => extension.to_str().map(str::to_owned),
        None => None,
    }
}

/// The file name ends in `.json` and is more than that.
pub open spec fn is_json_name(name: Seq<char>) -> bool {
    ".json"@.is_suffix_of(name) && name.len() > 5
}

/// The format of a file with the given name.
pub open spec fn format_of_name(name: Seq<char>) -> SpecFormat {
    if is_json_name(name) {
        SpecFormat::Json
    } else {
        SpecFormat::Yaml
    }
}

/// The format is that of the file at the path: that of its file name, as the platform divides the
/// path. Of the path of a network share it is only said that `.json` occurs in it if it is JSON.
pub open spec fn is_format_of(path: Seq<char>, format: SpecFormat) -> bool {
    &&& begins_like_share(path) || format == format_of_name(posix_name(path)) || format
        == format_of_name(windows_name(path))
    &&& format == SpecFormat::Json ==> occurs_in(".json"@, path)
}

/// Every platform divides the path in the same way.
pub open spec fn is_portable(path: Seq<char>) -> bool {
    !path.contains('\\') && !path.contains(':') && !begins_like_share(path)
}

/// The path is of a file with the given extension on every platform.
pub open spec fn has_extension(path: Seq<char>, extension: Seq<char>) -> bool {
    exists|front: Seq<char>|
        {
            &&& path == #[trigger] (front + "."@) + extension
            &&& front.len() > 0
            &&& !is_separator(front.last(), true)
            &&& front.last() != ':'
            &&& !begins_like_share(path)
            &&& is_plain_name(extension)
            &&& !extension.contains('.')
        }
}

/// The path is of a file without an extension on every platform: its name has no dot, or one only
/// at its front.
pub open spec fn lacks_extension(path: Seq<char>) -> bool {
    exists|dir: Seq<char>, name: Seq<char>|
        {
            &&& path == #[trigger] (dir + name)
            &&& dir.len() == 0 || dir.last() == '/'
            &&& !begins_like_share(path)
            &&& is_plain_name(name)
            &&& name != "."@
            &&& !name.skip(1).contains('.')
        }
}

proof fn lemma_after_last(s: Seq<char>, c: char)
    ensures
        !after_last(s, c).contains(c),
        after_last(s, c).is_suffix_of(s),
        after_last(s, c).len() < s.len() ==> s[s.len() - after_last(s, c).len() - 1] == c,
    decreases s.len(),
{
    let tail = after_last(s, c);
    if s.len() > 0 && s.last() != c {
        let shorter = after_last(s.drop_last(), c);
        lemma_after_last(s.drop_last(), c);
        assert forall|i: int| 0 <= i < tail.len() implies #[trigger] tail[i] != c by {
            if i < shorter.len() {
                assert(shorter[i] == tail[i]);
            }
        }
        assert(s.subrange(s.len() - tail.len(), s.len() as int) =~= tail);
    } else {
        assert(s.subrange(s.len() as int, s.len() as int) =~= tail);
    }
}

/// The extension of a file name is `json` exactly if the name ends in `.json` and is more than that.
proof fn lemma_json_name(name: Seq<char>)
    ensures
        extension_of(name) == Some("json"@) <==> is_json_name(name),
{
    reveal_strlit("json");
    reveal_strlit(".json");
    reveal_strlit("..");
    let tail = after_last(name, '.');
    let n = name.len();
    lemma_after_last(name, '.');
    if extension_of(name) == Some("json"@) {
        let end = name.subrange(n - 5, n as int);
        assert(tail == name.subrange(n - 4, n as int));
        assert forall|i: int| 0 <= i < 5 implies #[trigger] end[i] == ".json"@[i] by {
            if i > 0 {
                assert(tail[i - 1] == end[i]);
                assert("json"@[i - 1] == ".json"@[i]);
            }
        }
        assert(end =~= ".json"@);
    }
    if is_json_name(name) {
        let end = name.subrange(n - 5, n as int);
        assert(end == ".json"@);
        assert(end[0] == '.' && end[1] == 'j' && end[2] == 's' && end[3] == 'o' && end[4] == 'n');
        assert(name[n - 5] == '.' && name[n - 4] == 'j' && name[n - 3] == 's' && name[n - 2] == 'o'
            && name[n - 1] == 'n');
        if tail.len() > 4 {
            assert(tail == name.subrange(n - tail.len(), n as int));
            assert(tail[tail.len() - 5] == '.');
        }
        assert(tail.len() == 4);
        assert(tail =~= "json"@);
    }
}

proof fn lemma_format_of_name(name: Seq<char>)
    ensures
        format_of_extension(extension_of(name)) == format_of_name(name),
{
    lemma_json_name(name);
}

/// What follows a text behind its last separator stands behind it there too.
proof fn lemma_behind_separator(front: Seq<char>, name: Seq<char>, backslash: bool)
    requires
        is_plain_name(name) || name.len() == 0,
    ensures
        behind_separator(front + name, backslash) == behind_separator(front, backslash) + name,
    decreases name.len(),
{
    let whole = front + name;
    if name.len() == 0 {
        assert(whole =~= front);
        assert(behind_separator(front, backslash) + name =~= behind_separator(front, backslash));
    } else {
        let shorter = name.drop_last();
        assert(name[name.len() - 1] == name.last());
        assert forall|i: int| 0 <= i < shorter.len() implies (#[trigger] shorter[i]) != '/'
            && shorter[i] != '\\' && shorter[i] != ':' by {
            assert(name[i] == shorter[i]);
        }
        lemma_behind_separator(front, shorter, backslash);
        assert(whole.drop_last() =~= front + shorter);
        assert(behind_separator(whole, backslash) =~= behind_separator(front, backslash) + name);
    }
}

/// The last name of a path that ends in a name is what stands behind its last separator.
proof fn lemma_last_name(front: Seq<char>, name: Seq<char>, backslash: bool)
    requires
        is_plain_name(name),
        behind_separator(front, backslash) + name != "."@,
    ensures
        last_name(front + name, backslash) == behind_separator(front, backslash) + name,
{
    lemma_behind_separator(front, name, backslash);
    assert((front + name).last() == name[name.len() - 1]);
}

/// The extension of a name that is made with one is that one.
proof fn lemma_extension_of(stem: Seq<char>, extension: Seq<char>)
    requires
        stem.len() > 0,
        extension.len() > 0,
        !extension.contains('.'),
    ensures
        extension_of(stem + "."@ + extension) == Some(extension),
{
    reveal_strlit(".");
    reveal_strlit("..");
    let name = stem + "."@ + extension;
    let tail = after_last(name, '.');
    let n = name.len();
    lemma_after_last(name, '.');
    assert(name[stem.len() as int] == '.');
    assert(tail == name.subrange(n - tail.len(), n as int));
    if tail.len() > extension.len() {
        assert(tail[tail.len() - extension.len() - 1] == '.');
    }
    if tail.len() < extension.len() {
        let at = n - tail.len() - 1;
        assert(name[at] == extension[at - stem.len() - 1]);
    }
    assert(tail =~= extension);
}

proof fn lemma_separator_at_end(front: Seq<char>, backslash: bool)
    requires
        front.len() > 0,
    ensures
        behind_separator(front, backslash).len() > 0 <==> !is_separator(front.last(), backslash),
{
}

/// Where parts stand between slashes only, or between backslashes too, a path with an extension
/// has that one.
proof fn lemma_extension_at_end(front: Seq<char>, extension: Seq<char>, backslash: bool)
    requires
        front.len() > 0,
        !is_separator(front.last(), true),
        is_plain_name(extension),
        !extension.contains('.'),
    ensures
        extension_of(last_name((front + "."@) + extension, backslash)) == Some(extension),
{
    reveal_strlit(".");
    let name = "."@ + extension;
    let stem = behind_separator(front, backslash);
    lemma_separator_at_end(front, backslash);
    assert forall|i: int| 0 <= i < name.len() implies (#[trigger] name[i]) != '/' && name[i]
        != '\\' && name[i] != ':' by {
        if i > 0 {
            assert(name[i] == extension[i - 1]);
        }
    }
    assert((front + "."@) + extension =~= front + name);
    lemma_last_name(front, name, backslash);
    assert(stem + name =~= stem + "."@ + extension);
    lemma_extension_of(stem, extension);
}

/// Behind a directory, the last name of a path is its name.
proof fn lemma_name_at_end(dir: Seq<char>, name: Seq<char>, backslash: bool)
    requires
        dir.len() == 0 || dir.last() == '/',
        is_plain_name(name),
        name != "."@,
    ensures
        last_name(dir + name, backslash) == name,
{
    assert(behind_separator(dir, backslash) =~= Seq::empty());
    assert(behind_separator(dir, backslash) + name =~= name);
    lemma_last_name(dir, name, backslash);
}

/// A name without a dot behind its first character has no extension.
proof fn lemma_no_extension(name: Seq<char>)
    requires
        !name.skip(1).contains('.'),
    ensures
        extension_of(name) is None,
{
    let tail = after_last(name, '.');
    lemma_after_last(name, '.');
    if tail.len() + 1 < name.len() {
        let at = name.len() - tail.len() - 1;
        assert(name.skip(1)[at - 1] == '.');
    }
}

proof fn lemma_no_backslash(path: Seq<char>)
    requires
        !path.contains('\\'),
    ensures
        behind_separator(path, true) == behind_separator(path, false),
        last_name(path, true) == last_name(path, false),
    decreases path.len(),
{
    if path.len() > 0 {
        assert(path.contains(path.last()));
        assert forall|i: int| 0 <= i < path.drop_last().len() implies #[trigger] path.drop_last()[i]
            != '\\' by {
            assert(path[i] == path.drop_last()[i]);
        }
        lemma_no_backslash(path.drop_last());
    }
}

/// Where every platform divides a path in the same way, its file name tells the format; and
/// wherever an extension stands at the end of a path, or its name is without one, that does, also
/// behind a drive and backslashes.
pub proof fn law_path_tells_the_format(path: Seq<char>, format: SpecFormat)
    requires
        is_format_of(path, format),
    ensures
        is_portable(path) ==> format == format_of_name(posix_name(path)),
        forall|extension: Seq<char>| #[trigger]
            has_extension(path, extension) ==> format == format_of_extension(Some(extension)),
        lacks_extension(path) ==> format == SpecFormat::Yaml,
{
    lemma_format_of_name(posix_name(path));
    lemma_format_of_name(windows_name(path));
    if is_portable(path) {
        lemma_no_backslash(path);
        if path.len() >= 2 && path[1] == ':' {
            assert(path.contains(':'));
        }
    }
    assert forall|extension: Seq<char>| #[trigger] has_extension(path, extension) implies format
        == format_of_extension(Some(extension)) by {
        reveal_strlit(".");
        let front = choose|front: Seq<char>|
            {
                &&& path == #[trigger] (front + "."@) + extension
                &&& front.len() > 0
                &&& !is_separator(front.last(), true)
                &&& front.last() != ':'
                &&& !begins_like_share(path)
                &&& is_plain_name(extension)
                &&& !extension.contains('.')
            };
        lemma_extension_at_end(front, extension, false);
        if without_drive(path) == path {
            lemma_extension_at_end(front, extension, true);
        } else {
            assert(path[1] == ':');
            assert(front.len() > 2);
            assert(path.skip(2) =~= (front.skip(2) + "."@) + extension);
            lemma_extension_at_end(front.skip(2), extension, true);
        }
    }
    if lacks_extension(path) {
        let (dir, name) = choose|dir: Seq<char>, name: Seq<char>|
            {
                &&& path == #[trigger] (dir + name)
                &&& dir.len() == 0 || dir.last() == '/'
                &&& !begins_like_share(path)
                &&& is_plain_name(name)
                &&& name != "."@
                &&& !name.skip(1).contains('.')
            };
        reveal_strlit("json");
        lemma_no_extension(name);
        lemma_name_at_end(dir, name, false);
        if without_drive(path) == path {
            lemma_name_at_end(dir, name, true);
        } else {
            assert(path[1] == ':');
            if dir.len() < 2 {
                assert(path[1] == name[1 - dir.len()]);
            }
            assert(dir.len() > 2);
            assert(path.skip(2) =~= dir.skip(2) + name);
            lemma_name_at_end(dir.skip(2), name, true);
        }
    }
}

/// The format of the file at a path: JSON if its file name ends in `.json` and is more than that,
/// otherwise YAML.
pub fn detect_format(path: &str) -> (r: SpecFormat)
    ensures
        is_format_of(path@, r),
        is_portable(path@) ==> r == format_of_name(posix_name(path@)),
        forall|extension: Seq<char>| #[trigger]
            has_extension(path@, extension) ==> r == format_of_extension(Some(extension)),
        lacks_extension(path@) ==> r == SpecFormat::Yaml,
{
    proof {
        reveal_strlit(".");
        reveal_strlit("json");
        reveal_strlit(".json");
        assert("."@ + "json"@ =~= ".json"@);
        lemma_format_of_name(posix_name(path@));
        lemma_format_of_name(windows_name(path@));
    }
    let r = match path_extension(path) {
        Some(extension) => format_by_extension(Some(extension.as_str())),
        None => format_by_extension(None),
    };
    proof {
        law_path_tells_the_format(path@, r);
    }
    r
}

/// A file named by the extension of a format is of that format.
pub proof fn law_extension_tells_its_format(
    front: Seq<char>,
    format: SpecFormat,
    detected: SpecFormat,
)
    requires
        front.len() > 0,
        !is_separator(front.last(), true),
        front.last() != ':',
        !begins_like_share(front),
        is_format_of(front + "."@ + format.extension_text(), detected),
    ensures
        detected == format,
{
    reveal_strlit(".");
    reveal_strlit("json");
    reveal_strlit("yaml");
    let path = front + "."@ + format.extension_text();
    assert("json"@ != "yaml"@) by {
        assert("json"@[0] != "yaml"@[0]);
    }
    assert(path[1] == if front.len() > 1 { front[1] } else { '.' });
    assert(path == (front + "."@) + format.extension_text());
    assert(has_extension(path, format.extension_text()));
    law_path_tells_the_format(path, detected);
}

/// The format of a file with the given extension.
pub fn format_by_extension(extension: Option<&str>) -> (r: SpecFormat)
    ensures
        r == format_of_extension(opt_text(extension)),
{
    match extension {
        Some(e) => if same_text(e, "json") {
            SpecFormat::Json
        } else {
            SpecFormat::Yaml
        },
        None => SpecFormat::Yaml,
    }
}

/// Guess format from a URL path or fall back to YAML.
pub fn detect_format_from_url(url: &str) -> (r: SpecFormat)
    ensures
        r == format_of_url(url@),
{
    let chars = chars_of(url);
    let query = find_char(&chars, '?', 0);
    let fragment = find_char(&chars, '#', 0);
    let end: usize = if query < fragment {
        query
    } else {
        fragment
    };
    let path = url.substring_char(0, end);
    proof {
        assert(path@ =~= before_query(url@));
    }
    if finishes_with(path, ".json") {
        SpecFormat::Json
    } else {
        SpecFormat::Yaml
    }
}

} // verus!

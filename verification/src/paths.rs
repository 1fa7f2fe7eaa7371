//! File names and document URIs.

use vstd::prelude::*;

use crate::text::{from_chars, last_index, lemma_last_index, lowercase, lowercase_of, rfind_char, same_text,
    to_chars};

verus! {

// ---------------------------------------------------------------------------
// Names of directory entries
// ---------------------------------------------------------------------------

/// The position of the dot that splits a file name into stem and extension: the last dot,
/// unless it is the first character or the name is `..`.
pub open spec fn extension_dot(name: Seq<char>) -> Option<int> {
    match last_index(name, '.') {
        Some(i) => if i == 0 || name == ".."@ {
            None
        } else {
            Some(i)
        },
        None => None,
    }
}

/// What follows the dot of a file name.
pub open spec fn extension_of(name: Seq<char>) -> Option<Seq<char>> {
    match extension_dot(name) {
        Some(i) => Some(name.skip(i + 1)),
        None => None,
    }
}

/// A file name without its extension.
pub open spec fn stem_of(name: Seq<char>) -> Seq<char> {
    match extension_dot(name) {
        Some(i) => name.take(i),
        None => if name == ".."@ {
            Seq::empty()
        } else {
            name
        },
    }
}

/// Splits a file name into its stem and its extension.
fn split_name(name: &str) -> (result: (String, Option<String>))
    ensures
        result.0@ == stem_of(name@),
        match result.1 {
            Some(extension) => extension_of(name@) == Some(extension@),
            None => extension_of(name@) is None,
        },
{
    let chars = to_chars(name);
    let total: usize = chars.len();
    proof {
        lemma_last_index(chars@, '.');
    }
    if same_text(name, "..") {
        return (String::new(), None);
    }
    match rfind_char(&chars, '.') {
        Some(i) if i > 0 => {
            assert(chars@.subrange(0, i as int) =~= chars@.take(i as int));
            assert(chars@.subrange(i + 1, total as int) =~= chars@.skip(i + 1));
            (from_chars(&chars, 0, i), Some(from_chars(&chars, i + 1, total)))
        },
        _ => (name.to_owned(), None),
    }
}

/// True when the file `name` has the extension `extension`.
pub fn has_extension(name: &str, extension: &str) -> (result: bool)
    ensures
        result == (extension_of(name@) == Some(extension@)),
{
    match split_name(name).1 {
        Some(found) => same_text(found.as_str(), extension),
        None => false,
    }
}

/// The stem of a file name, in lowercase.
pub fn name_stem(name: &str) -> (result: String)
    ensures
        result@ == lowercase_of(stem_of(name@)),
{
    lowercase(split_name(name).0.as_str())
}

/// True for the name of a plugin script.
pub open spec fn is_plugin_name(name: Seq<char>) -> bool {
    &&& extension_of(name) == Some("ts"@) || extension_of(name) == Some("js"@)
    &&& name != "_patches.js"@
}

/// True for the name of a plugin script: TypeScript or JavaScript, but not the file that
/// holds the schema patches.
pub fn is_plugin_file(name: &str) -> (result: bool)
    ensures
        result == is_plugin_name(name@),
{
    (has_extension(name, "ts") || has_extension(name, "js")) && !same_text(name, "_patches.js")
}

// ---------------------------------------------------------------------------
// Document URIs
// ---------------------------------------------------------------------------

/// The last path segment that `Url::path_segments` gives for a URI; none where the text
/// is no URI or the URI has no path segments.
pub uninterp spec fn last_segment_of(uri: Seq<char>) -> Option<Seq<char>>;

/// Calls `Url::parse` and `Url::path_segments` and takes the last segment. The result is
/// a function of the URI alone; how a URI is split is left to those functions.
#[verifier::external_body]
fn last_path_segment(uri: &str) -> (result: Option<String>)
    ensures
        match result {
            Some(segment) => last_segment_of(uri@) == Some(segment@),
            None => last_segment_of(uri@) is None,
        },
{
    let url = tower_lsp::lsp_types::Url::parse(uri).ok()?;
    url.path_segments().and_then(|segments| segments.last()).map(String::from)
}

/// Calls `Url::parse` and `Url::to_file_path`, and writes the path as a URI again with
/// `Url::from_file_path`. Which path a URI stands for depends on the platform, so nothing
/// is promised of the result: it is none where the URI names no file, and otherwise the
/// URI of the file that it names.
#[verifier::external_body]
pub(crate) fn file_uri(uri: &str) -> (result: Option<String>) {
    let path = tower_lsp::lsp_types::Url::parse(uri).ok()?.to_file_path().ok()?;
    tower_lsp::lsp_types::Url::from_file_path(path).ok().map(String::from)
}

/// The stem of a path segment, in lowercase: what stands before the last dot.
pub open spec fn segment_stem(segment: Option<Seq<char>>) -> Seq<char> {
    let name = match segment {
        Some(s) => s,
        None => Seq::empty(),
    };
    match last_index(name, '.') {
        Some(i) => lowercase_of(name.take(i)),
        None => lowercase_of(name),
    }
}

/// The stem of a path segment, in lowercase.
pub fn stem_of_segment(segment: Option<&str>) -> (result: String)
    ensures
        result@ == segment_stem(
            match segment {
                Some(s) => Some(s@),
                None => None,
            },
        ),
{
    let name = match segment {
        Some(s) => s,
        None => "",
    };
    proof {
        reveal_strlit("");
        assert(segment is None ==> name@ =~= Seq::empty());
        lemma_last_index(name@, '.');
    }
    let chars = to_chars(name);
    match rfind_char(&chars, '.') {
        Some(i) => {
            assert(chars@.subrange(0, i as int) =~= chars@.take(i as int));
            lowercase(from_chars(&chars, 0, i).as_str())
        },
        None => lowercase(name),
    }
}

/// The lowercase file stem of a document (`"armor"` for `.../armor.txt`).
pub open spec fn uri_stem(uri: Seq<char>) -> Seq<char> {
    segment_stem(last_segment_of(uri))
}

/// Extract the lowercase file stem from a URI (`"armor"` from `.../armor.txt`).
pub fn file_stem(uri: &str) -> (result: String)
    ensures
        result@ == uri_stem(uri@),
{
    match last_path_segment(uri) {
        Some(segment) => stem_of_segment(Some(segment.as_str())),
        None => stem_of_segment(None),
    }
}

// ---------------------------------------------------------------------------
// Laws
// ---------------------------------------------------------------------------

proof fn lemma_last_dot(stem: Seq<char>, extension: Seq<char>)
    requires
        !extension.contains('.'),
    ensures
        ({
            let name = stem + seq!['.'] + extension;
            &&& last_index(name, '.') == Some(stem.len() as int)
            &&& name.take(stem.len() as int) == stem
            &&& name.skip(stem.len() as int + 1) == extension
        }),
{
    let name = stem + seq!['.'] + extension;
    let n = stem.len() as int;
    lemma_last_index(name, '.');
    assert(name[n] == '.');
    assert forall|i: int| n < i < name.len() implies name[i] != '.' by {
        assert(name[i] == extension[i - n - 1]);
    }
    assert(name.take(n) =~= stem);
    assert(name.skip(n + 1) =~= extension);
}

/// The last dot of a file name parts the stem, which is not empty, from the extension.
pub proof fn law_name_is_stem_and_extension(stem: Seq<char>, extension: Seq<char>)
    requires
        stem.len() > 0,
        !extension.contains('.'),
        stem != seq!['.'] || extension.len() > 0,
    ensures
        extension_of(stem + seq!['.'] + extension) == Some(extension),
        stem_of(stem + seq!['.'] + extension) == stem,
{
    reveal_strlit("..");
    let name = stem + seq!['.'] + extension;
    lemma_last_dot(stem, extension);
    if name == ".."@ {
        assert(name[0] == stem[0]);
        assert(stem =~= seq!['.']);
    }
}

/// A file name without a dot, or with its only dot at the start, has no extension, and is
/// its own stem.
pub proof fn law_name_without_extension(name: Seq<char>)
    requires
        forall|i: int| 0 < i < name.len() ==> name[i] != '.',
    ensures
        extension_of(name) is None,
        stem_of(name) == name,
{
    reveal_strlit("..");
    lemma_last_index(name, '.');
    if name == ".."@ {
        assert(name[1] == '.');
    }
}

/// The plugin scripts are the names that end in `.ts` or `.js`, but for the one file of
/// patches.
pub proof fn law_plugin_names(stem: Seq<char>, extension: Seq<char>)
    requires
        stem.len() > 0,
        !extension.contains('.'),
        stem != seq!['.'] || extension.len() > 0,
    ensures
        is_plugin_name(stem + seq!['.'] + extension) <==> {
            &&& extension == seq!['t', 's'] || extension == seq!['j', 's']
            &&& !(stem == seq!['_', 'p', 'a', 't', 'c', 'h', 'e', 's'] && extension == seq!['j', 's'])
        },
{
    reveal_strlit("ts");
    reveal_strlit("js");
    reveal_strlit("_patches.js");
    assert("ts"@ =~= seq!['t', 's']);
    assert("js"@ =~= seq!['j', 's']);
    let patches = seq!['_', 'p', 'a', 't', 'c', 'h', 'e', 's'];
    let js = seq!['j', 's'];
    assert("_patches.js"@ =~= patches + seq!['.'] + js);
    law_name_is_stem_and_extension(stem, extension);
    assert(!js.contains('.'));
    law_name_is_stem_and_extension(patches, js);
}

/// The stem of a document is what stands before the last dot of the last part of its path,
/// or the whole of it where there is no dot, in lowercase.
pub proof fn law_stem_of_a_document(stem: Seq<char>, extension: Seq<char>)
    requires
        !extension.contains('.'),
    ensures
        segment_stem(Some(stem + seq!['.'] + extension)) == lowercase_of(stem),
        segment_stem(Some(extension)) == lowercase_of(extension),
        segment_stem(None) == lowercase_of(Seq::empty()),
        forall|uri: Seq<char>| #[trigger]
            last_segment_of(uri) == Some(stem + seq!['.'] + extension) ==> uri_stem(uri)
                == lowercase_of(stem),
        forall|uri: Seq<char>| #[trigger]
            last_segment_of(uri) == Some(extension) ==> uri_stem(uri) == lowercase_of(extension),
        forall|uri: Seq<char>| #[trigger]
            last_segment_of(uri) is None ==> uri_stem(uri) == lowercase_of(Seq::empty()),
{
    lemma_last_dot(stem, extension);
    lemma_last_index(extension, '.');
    lemma_last_index(Seq::empty(), '.');
}

} // verus!

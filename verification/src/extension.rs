//! File name extensions: how one is read off a path, and when it belongs to
//! a set of extensions.

use vstd::prelude::*;

verus! {

/// The texts of a sequence of strings, in order.
pub open spec fn texts(strings: Seq<String>) -> Seq<Seq<char>> {
    Seq::new(strings.len(), |i: int| strings[i]@)
}

/// Merges the built-in extensions with those the user asked for.
///
/// The defaults come first and the user's extensions follow, each list in its
/// own order. Nothing is dropped: an extension named twice stays twice.
pub fn combine_extensions(user_extensions: &[String], default_extensions: &[String]) -> (all: Vec<
    String,
>)
    ensures
        texts(all@) == texts(default_extensions@) + texts(user_extensions@),
        all@.len() == user_extensions@.len() + default_extensions@.len(),
{
    let mut all: Vec<String> = Vec::new();
    let mut i: usize = 0;
    while i < default_extensions.len()
        invariant
            i <= default_extensions@.len(),
            all@ == default_extensions@.take(i as int),
        decreases default_extensions@.len() - i,
    {
        all.push(default_extensions[i].clone());
        i += 1;
    }
    let mut j: usize = 0;
    while j < user_extensions.len()
        invariant
            j <= user_extensions@.len(),
            all@ == default_extensions@ + user_extensions@.take(j as int),
        decreases user_extensions@.len() - j,
    {
        all.push(user_extensions[j].clone());
        j += 1;
    }
    assert(texts(all@) =~= texts(default_extensions@) + texts(user_extensions@));
    all
}

/// The final segment of a path: the text after its last `/`, or the whole
/// path where it holds no `/`.
pub open spec fn final_segment(path: Seq<char>) -> Seq<char> {
    match path.index_of_last('/') {
        Some(slash) => path.subrange(slash + 1, path.len() as int),
        None => path,
    }
}

/// The extension of a path: the text after the last `.` of its final
/// segment. A final segment without a `.` has none; one that ends in a `.`
/// has the empty extension, and one that begins with its only `.` has all
/// that follows as its extension.
pub open spec fn extension_of(path: Seq<char>) -> Option<Seq<char>> {
    let name = final_segment(path);
    match name.index_of_last('.') {
        Some(dot) => Some(name.subrange(dot + 1, name.len() as int)),
        None => None,
    }
}

/// Whether `at` is where `mark` last occurs among the first `upto`
/// characters of `text` (`None`: it occurs nowhere among them).
pub open spec fn last_seen(text: Seq<char>, mark: char, upto: int, at: Option<usize>) -> bool {
    match at {
        Some(i) => i < upto && text[i as int] == mark && forall|j: int|
            i < j < upto ==> text[j] != mark,
        None => forall|j: int| 0 <= j < upto ==> text[j] != mark,
    }
}

/// Reads the extension off a path.
pub fn file_extension(path: &str) -> (extension: Option<&str>)
    ensures
        extension is Some <==> extension_of(path@) is Some,
        extension matches Some(text) ==> Some(text@) == extension_of(path@),
{
    let length: usize = path.unicode_len();
    let mut dot: Option<usize> = None;
    let mut slash: Option<usize> = None;
    let mut count: usize = 0;
    for c in it: path.chars()
        invariant
            it.seq() == path@,
            count == it.index(),
            length == path@.len(),
            last_seen(path@, '.', count as int, dot),
            last_seen(path@, '/', count as int, slash),
    {
        if c == '.' {
            dot = Some(count);
        } else if c == '/' {
            slash = Some(count);
        }
        count = count + 1;
    }
    proof {
        lemma_extension_by_marks(path@, dot, slash);
    }
    match dot {
        None => None,
        Some(d) => {
            let inside: bool = match slash {
                None => true,
                Some(s) => s < d,
            };
            if inside {
                Some(path.substring_char(d + 1, length))
            } else {
                None
            }
        },
    }
}

/// With the last `.` and the last `/` of a path known, its extension is the
/// text after that `.`, provided the `.` stands after the `/`.
pub proof fn lemma_extension_by_marks(path: Seq<char>, dot: Option<usize>, slash: Option<usize>)
    requires
        last_seen(path, '.', path.len() as int, dot),
        last_seen(path, '/', path.len() as int, slash),
    ensures
        extension_of(path) == match dot {
            Some(d) if slash is None || slash->0 < d => Some(
                path.subrange(d + 1, path.len() as int),
            ),
            _ => None,
        },
{
    path.index_of_last_ensures('/');
    let name = final_segment(path);
    name.index_of_last_ensures('.');
    let start: int = match slash {
        Some(s) => s + 1,
        None => 0,
    };
    assert(name =~= path.subrange(start, path.len() as int));
    match name.index_of_last('.') {
        Some(i) => {
            assert(path[start + i] == '.');
            assert(dot is Some);
            assert(dot->0 >= start + i);
            assert(name[dot->0 - start] == path[dot->0 as int]);
            assert(dot->0 == start + i);
            assert(name.subrange(i + 1, name.len() as int) =~= path.subrange(
                dot->0 + 1,
                path.len() as int,
            ));
        },
        None => {
            if dot is Some && start <= dot->0 {
                assert(name[dot->0 - start] == '.');
                assert(name.contains('.'));
            }
        },
    }
}

/// The lowercase form of a text, as `str::to_lowercase` of the standard
/// library gives it.
pub uninterp spec fn lowercase(text: Seq<char>) -> Seq<char>;

/// The lowercase forms of a sequence of texts, in order.
pub open spec fn lowercase_all(list: Seq<Seq<char>>) -> Seq<Seq<char>> {
    Seq::new(list.len(), |i: int| lowercase(list[i]))
}

/// Whether `extension` is listed in `extensions` once case is set aside:
/// some entry has the same lowercase form.
pub open spec fn extension_listed(extension: Seq<char>, extensions: Seq<Seq<char>>) -> bool {
    exists|i: int|
        0 <= i < extensions.len() && lowercase(#[trigger] extensions[i]) == lowercase(extension)
}

/// Whether a path counts for a set of extensions: it has an extension, and
/// that extension is listed. A path without an extension counts for no set,
/// and no path counts for the empty set.
pub open spec fn path_matches(path: Seq<char>, extensions: Seq<Seq<char>>) -> bool {
    match extension_of(path) {
        Some(extension) => extension_listed(extension, extensions),
        None => false,
    }
}

/// Brings a text to lowercase with `str::to_lowercase` of the standard
/// library.
///
/// Not proved: the contract takes it on trust that the string returned is
/// [`lowercase`] of the argument, which is to say that it depends on the
/// characters of the argument and on nothing else. What the lowercase form
/// of a given text is, the contract does not say.
#[verifier::external_body]
fn to_lowercase(text: &str) -> (lowered: String)
    ensures
        lowered@ == lowercase(text@),
{
    text.to_lowercase()
}

/// Brings every extension of a set to lowercase, keeping order and
/// duplicates.
pub fn normalize_extensions(extensions: &[String]) -> (lowered: Vec<String>)
    ensures
        texts(lowered@) == lowercase_all(texts(extensions@)),
{
    let mut lowered: Vec<String> = Vec::new();
    let mut i: usize = 0;
    while i < extensions.len()
        invariant
            i <= extensions@.len(),
            lowered@.len() == i,
            forall|j: int| 0 <= j < i ==> lowered@[j]@ == lowercase(extensions@[j]@),
        decreases extensions@.len() - i,
    {
        lowered.push(to_lowercase(extensions[i].as_str()));
        i += 1;
    }
    assert(texts(lowered@) =~= lowercase_all(texts(extensions@)));
    lowered
}

/// Whether `needle` is, letter for letter, one of the strings of `list`.
pub fn contains_text(needle: &String, list: &[String]) -> (found: bool)
    ensures
        found == texts(list@).contains(needle@),
{
    let mut i: usize = 0;
    while i < list.len()
        invariant
            i <= list@.len(),
            forall|j: int| 0 <= j < i ==> list@[j]@ != needle@,
        decreases list@.len() - i,
    {
        if list[i] == *needle {
            assert(texts(list@)[i as int] == needle@);
            return true;
        }
        i += 1;
    }
    false
}

/// Whether a path counts for a set of extensions that is already in
/// lowercase: its extension, brought to lowercase, is one of them.
pub fn matches_normalized(file_path: &str, lowered: &[String]) -> (valid: bool)
    ensures
        valid == match extension_of(file_path@) {
            Some(extension) => texts(lowered@).contains(lowercase(extension)),
            None => false,
        },
{
    match file_extension(file_path) {
        Some(extension) => {
            let folded: String = to_lowercase(extension);
            contains_text(&folded, lowered)
        },
        None => false,
    }
}

/// Whether a file counts for a set of extensions.
///
/// The extension is the text after the last `.` of the path's final segment;
/// it is compared with each entry of `extensions` without regard to case. A
/// path without an extension never counts, and every file is turned down by
/// the empty set.
pub fn has_valid_extension(file_path: &str, extensions: &[String]) -> (valid: bool)
    ensures
        valid == path_matches(file_path@, texts(extensions@)),
        extension_of(file_path@) is None ==> !valid,
        extensions@.len() == 0 ==> !valid,
{
    let lowered: Vec<String> = normalize_extensions(extensions);
    let valid: bool = matches_normalized(file_path, lowered.as_slice());
    proof {
        lemma_normalized_membership(file_path@, texts(extensions@));
    }
    valid
}

/// Looking an extension up in the lowercase forms of a set is the same as
/// asking whether the set lists it.
pub proof fn lemma_normalized_membership(path: Seq<char>, extensions: Seq<Seq<char>>)
    ensures
        extension_of(path) matches Some(extension) ==> (lowercase_all(extensions).contains(
            lowercase(extension),
        ) <==> extension_listed(extension, extensions)),
{
    if let Some(extension) = extension_of(path) {
        let all = lowercase_all(extensions);
        if all.contains(lowercase(extension)) {
            let i = choose|i: int| 0 <= i < all.len() && all[i] == lowercase(extension);
            assert(lowercase(extensions[i]) == lowercase(extension));
        }
        if extension_listed(extension, extensions) {
            let i = choose|i: int|
                0 <= i < extensions.len() && lowercase(#[trigger] extensions[i]) == lowercase(
                    extension,
                );
            assert(all[i] == lowercase(extension));
        }
    }
}

/// The extensions that count where the user names none: common image
/// formats, then common video formats.
pub open spec fn media_extensions() -> Seq<Seq<char>> {
    seq![
        "jpg"@,
        "jpeg"@,
        "png"@,
        "gif"@,
        "bmp"@,
        "mp4"@,
        "avi"@,
        "mkv"@,
        "mov"@,
        "wmv"@,
    ]
}

/// The built-in list of extensions.
pub fn default_extensions() -> (defaults: Vec<String>)
    ensures
        texts(defaults@) == media_extensions(),
{
    let mut defaults: Vec<String> = Vec::new();
    defaults.push("jpg".to_owned());
    defaults.push("jpeg".to_owned());
    defaults.push("png".to_owned());
    defaults.push("gif".to_owned());
    defaults.push("bmp".to_owned());
    defaults.push("mp4".to_owned());
    defaults.push("avi".to_owned());
    defaults.push("mkv".to_owned());
    defaults.push("mov".to_owned());
    defaults.push("wmv".to_owned());
    assert(texts(defaults@) =~= media_extensions());
    defaults
}

/// A path without an extension counts for no set of extensions.
pub proof fn lemma_no_extension_never_matches(path: Seq<char>, extensions: Seq<Seq<char>>)
    requires
        extension_of(path) is None,
    ensures
        !path_matches(path, extensions),
{
}

/// A path whose extension has the lowercase form of some entry of the set
/// counts for that set.
pub proof fn lemma_listed_extension_matches(
    path: Seq<char>,
    extensions: Seq<Seq<char>>,
    entry: int,
)
    requires
        0 <= entry < extensions.len(),
        extension_of(path) matches Some(extension) && lowercase(extension) == lowercase(
            extensions[entry],
        ),
    ensures
        path_matches(path, extensions),
{
}

/// Two paths whose extensions differ in case only, that is, have the same
/// lowercase form, count for the same sets of extensions.
pub proof fn lemma_case_variations_agree(
    first: Seq<char>,
    second: Seq<char>,
    extensions: Seq<Seq<char>>,
)
    requires
        extension_of(first) is Some,
        extension_of(second) is Some,
        lowercase(extension_of(first)->0) == lowercase(extension_of(second)->0),
    ensures
        path_matches(first, extensions) == path_matches(second, extensions),
{
}

} // verus!

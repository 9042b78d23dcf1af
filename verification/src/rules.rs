//! The exclusion rules and the predicate that decides whether an entry is
//! left out of a snapshot.

use vstd::prelude::*;

verus! {

/// Three lists of strings by which entries are left out: substrings of the
/// whole path, exact final names, and exact extensions. An empty string in
/// any list matches nothing.
pub struct ExclusionRules {
    pub folders: Vec<String>,
    pub files: Vec<String>,
    pub extensions: Vec<String>,
}

/// The texts of a list of strings.
pub open spec fn texts(list: Seq<String>) -> Seq<Seq<char>> {
    Seq::new(list.len(), |i: int| list[i]@)
}

/// The pieces into which the commas of `text` cut it, in order. A text with
/// n commas has n + 1 pieces; the empty text has one, which is empty.
pub open spec fn split_commas(text: Seq<char>) -> Seq<Seq<char>>
    decreases text.len(),
{
    if text.len() == 0 {
        seq![Seq::empty()]
    } else {
        let before = split_commas(text.drop_last());
        if text.last() == ',' {
            before.push(Seq::empty())
        } else {
            before.update(before.len() - 1, before.last().push(text.last()))
        }
    }
}

/// Pieces put together again with a comma between each two.
pub open spec fn join_commas(pieces: Seq<Seq<char>>) -> Seq<char>
    decreases pieces.len(),
{
    if pieces.len() == 0 {
        Seq::empty()
    } else if pieces.len() == 1 {
        pieces[0]
    } else {
        join_commas(pieces.drop_last()) + seq![','] + pieces.last()
    }
}

/// Cutting a text at its commas gives at least one piece, no piece holds a
/// comma, and the pieces joined with commas are the text again.
pub proof fn split_then_join(text: Seq<char>)
    ensures
        split_commas(text).len() >= 1,
        forall|k: int, j: int|
            0 <= k < split_commas(text).len() && 0 <= j < split_commas(text)[k].len()
                ==> split_commas(text)[k][j] != ',',
        join_commas(split_commas(text)) == text,
    decreases text.len(),
{
    if text.len() == 0 {
        assert(join_commas(split_commas(text)) =~= text);
    } else {
        let shorter = text.drop_last();
        split_then_join(shorter);
        let before = split_commas(shorter);
        let pieces = split_commas(text);
        if text.last() == ',' {
            assert(pieces.drop_last() =~= before);
            if before.len() == 1 {
                assert(join_commas(before) == before[0]);
            }
            assert(join_commas(pieces) =~= shorter + seq![',']);
            assert(shorter + seq![','] =~= text);
        } else {
            let grown = before.last().push(text.last());
            if before.len() == 1 {
                assert(join_commas(before) == before[0]);
                assert(join_commas(pieces) =~= grown);
            } else {
                assert(pieces.drop_last() =~= before.drop_last());
                assert(join_commas(pieces) =~= join_commas(before.drop_last()) + seq![','] + grown);
                assert(join_commas(before) =~= join_commas(before.drop_last()) + seq![',']
                    + before.last());
            }
            assert(join_commas(pieces) =~= join_commas(before).push(text.last()));
            assert(shorter.push(text.last()) =~= text);
        }
    }
}

/// The final component of a path, as `std::path::Path::file_name` gives it
/// for the path with this text; `None` where the path has none.
pub uninterp spec fn path_file_name(path: Seq<char>) -> Option<Seq<char>>;

/// `needle` occurs in `hay` as a contiguous run of characters.
pub open spec fn is_substring(needle: Seq<char>, hay: Seq<char>) -> bool {
    exists|i: int|
        0 <= i && i + needle.len() <= hay.len() && #[trigger] hay.subrange(i, i + needle.len())
            == needle
}

/// Some non-empty entry of `list` occurs inside `text`.
pub open spec fn some_entry_inside(text: Seq<char>, list: Seq<String>) -> bool {
    exists|k: int|
        0 <= k < list.len() && (#[trigger] list[k])@.len() > 0 && is_substring(list[k]@, text)
}

/// Some non-empty entry of `list` equals `text`.
pub open spec fn some_entry_equals(text: Seq<char>, list: Seq<String>) -> bool {
    exists|k: int| 0 <= k < list.len() && (#[trigger] list[k])@.len() > 0 && list[k]@ == text
}

/// Position of the last `.` in `name`, or -1 where it holds none.
pub open spec fn last_dot(name: Seq<char>) -> int
    decreases name.len(),
{
    if name.len() == 0 {
        -1
    } else if name.last() == '.' {
        name.len() - 1
    } else {
        last_dot(name.drop_last())
    }
}

/// The extension of a final name: what follows its last `.`, unless the name
/// holds no `.` or its only `.` is its first character.
pub open spec fn extension_of(name: Option<Seq<char>>) -> Option<Seq<char>> {
    match name {
        None => None,
        Some(n) => if last_dot(n) <= 0 {
            None
        } else {
            Some(n.subrange(last_dot(n) + 1, n.len() as int))
        },
    }
}

/// The text of an optional component, empty where there is none.
pub open spec fn text_or_empty(part: Option<Seq<char>>) -> Seq<char> {
    match part {
        Some(t) => t,
        None => Seq::empty(),
    }
}

/// The decision itself, over the three texts that it reads: the whole path,
/// its final name and its extension.
pub open spec fn excluded_by(
    path: Seq<char>,
    name: Seq<char>,
    extension: Seq<char>,
    rules: &ExclusionRules,
) -> bool {
    some_entry_inside(path, rules.folders@) || some_entry_equals(name, rules.files@)
        || some_entry_equals(extension, rules.extensions@)
}

/// Whether the entry at `path` is left out under `rules`.
pub open spec fn path_excluded(path: Seq<char>, rules: &ExclusionRules) -> bool {
    excluded_by(
        path,
        text_or_empty(path_file_name(path)),
        text_or_empty(extension_of(path_file_name(path))),
        rules,
    )
}

/// Calls `std::path::Path::file_name` on the path with the given text. The
/// result is only named: it is the final component as std computes it.
#[verifier::external_body]
pub(crate) fn file_name(path: &str) -> (r: Option<String>)
    ensures
        r.is_some() == path_file_name(path@).is_some(),
        r.is_some() ==> r.unwrap()@ == path_file_name(path@).unwrap(),
{
    std::path::Path::new(path).file_name().and_then(|n| n.to_str()).map(|n| n.to_string())
}

/// Calls `std::path::Path::extension` on the path with the given text. As
/// std documents it, the extension is taken from the final name: there is
/// none where the path has no final name, where the name holds no `.`, or
/// where its only `.` comes first; otherwise it is what follows the last `.`.
#[verifier::external_body]
pub(crate) fn extension(path: &str) -> (r: Option<String>)
    ensures
        r.is_some() == extension_of(path_file_name(path@)).is_some(),
        r.is_some() ==> r.unwrap()@ == extension_of(path_file_name(path@)).unwrap(),
{
    std::path::Path::new(path).extension().and_then(|e| e.to_str()).map(|e| e.to_string())
}

/// Calls `str::contains` with a string pattern: whether `needle` occurs in
/// `hay` as a contiguous run.
#[verifier::external_body]
pub(crate) fn contains(hay: &str, needle: &str) -> (r: bool)
    ensures
        r == is_substring(needle@, hay@),
{
    hay.contains(needle)
}

/// The entries of a list written with commas between them.
pub fn parse_list(text: &str) -> (list: Vec<String>)
    ensures
        texts(list@) == split_commas(text@),
{
    let n: usize = text.unicode_len();
    let mut list: Vec<String> = Vec::new();
    let mut start: usize = 0;
    let mut i: usize = 0;
    assert(text@.take(0) =~= Seq::<char>::empty());
    assert(texts(list@).push(text@.subrange(0, 0)) =~= seq![Seq::<char>::empty()]);
    while i < n
        invariant
            n == text@.len(),
            start <= i <= n,
            split_commas(text@.take(i as int)) == texts(list@).push(
                text@.subrange(start as int, i as int),
            ),
        decreases n - i,
    {
        let ghost seen = text@.take(i as int + 1);
        let ghost pieces = texts(list@);
        assert(seen.drop_last() =~= text@.take(i as int));
        assert(seen.last() == text@[i as int]);
        let ghost current = text@.subrange(start as int, i as int);
        let ghost before = pieces.push(current);
        if text.get_char(i) == ',' {
            list.push(text.substring_char(start, i).to_owned());
            start = i + 1;
            proof {
                assert(texts(list@) =~= before);
                assert(text@.subrange(start as int, i as int + 1) =~= Seq::<char>::empty());
            }
        } else {
            proof {
                assert(text@.subrange(start as int, i as int + 1) =~= current.push(text@[i as int]));
                assert(before.update(before.len() - 1, before.last().push(text@[i as int]))
                    =~= pieces.push(current.push(text@[i as int])));
            }
        }
        i += 1;
    }
    assert(text@.take(n as int) =~= text@);
    list.push(text.substring_char(start, n).to_owned());
    assert(texts(list@) =~= split_commas(text@));
    list
}

impl ExclusionRules {
    /// The rules from three lists, each written with commas between its
    /// entries.
    pub fn from_lists(folders: &str, files: &str, extensions: &str) -> (rules: ExclusionRules)
        ensures
            texts(rules.folders@) == split_commas(folders@),
            texts(rules.files@) == split_commas(files@),
            texts(rules.extensions@) == split_commas(extensions@),
    {
        ExclusionRules {
            folders: parse_list(folders),
            files: parse_list(files),
            extensions: parse_list(extensions),
        }
    }
}

/// Whether some non-empty entry of `list` occurs inside `text`.
pub fn any_inside(text: &str, list: &Vec<String>) -> (r: bool)
    ensures
        r == some_entry_inside(text@, list@),
{
    let mut i: usize = 0;
    while i < list.len()
        invariant
            i <= list.len(),
            forall|k: int| 0 <= k < i ==> !((#[trigger] list@[k])@.len() > 0 && is_substring(list@[k]@, text@)),
        decreases list.len() - i,
    {
        let entry: &str = list[i].as_str();
        if !entry.is_empty() && contains(text, entry) {
            return true;
        }
        i += 1;
    }
    false
}

/// Whether some non-empty entry of `list` equals `text`.
pub fn any_equal(text: &str, list: &Vec<String>) -> (r: bool)
    ensures
        r == some_entry_equals(text@, list@),
{
    let wanted: String = text.to_owned();
    let mut i: usize = 0;
    while i < list.len()
        invariant
            i <= list.len(),
            wanted@ == text@,
            forall|k: int| 0 <= k < i ==> !((#[trigger] list@[k])@.len() > 0 && list@[k]@ == text@),
        decreases list.len() - i,
    {
        if !list[i].as_str().is_empty() && list[i] == wanted {
            return true;
        }
        i += 1;
    }
    false
}

/// Decides from the path's text, its final name and its extension whether
/// the entry is left out: a folder entry occurs anywhere inside the path, a
/// file entry equals the name, or an extension entry equals the extension.
pub fn matches_rules(path: &str, name: &str, extension: &str, rules: &ExclusionRules) -> (r: bool)
    ensures
        r == excluded_by(path@, name@, extension@, rules),
{
    any_inside(path, &rules.folders) || any_equal(name, &rules.files) || any_equal(
        extension,
        &rules.extensions,
    )
}

/// Whether the entry at `path` is left out under `rules`. The final name and
/// the extension are those that std's `Path` finds in the path; a path with
/// neither is judged with the empty text in their place.
pub fn is_excluded(path: &str, rules: &ExclusionRules) -> (r: bool)
    ensures
        r == path_excluded(path@, rules),
{
    let name = text_of(file_name(path));
    let ext = text_of(extension(path));
    matches_rules(path, name.as_str(), ext.as_str(), rules)
}

/// The string inside, or the empty string.
pub fn text_of(part: Option<String>) -> (r: String)
    ensures
        r@ == match part {
            Some(t) => t@,
            None => Seq::<char>::empty(),
        },
{
    match part {
        Some(t) => t,
        None => String::new(),
    }
}

} // verus!

//! The text of the files that the rules let through, one labelled block
//! for each, and the whole snapshot.

use vstd::prelude::*;
use crate::rules::{
    ExclusionRules,
    file_name,
    is_excluded,
    path_excluded,
    path_file_name,
    text_of,
    text_or_empty,
};
use crate::tree::{Node, generate_tree_structure, lines_of, tree_text};

verus! {

/// What is left of `path` once the leading `base` is taken off it, as
/// `std::path::Path::strip_prefix` gives it for the paths with these texts;
/// `None` where `base` does not lead `path`.
pub uninterp spec fn path_strip_prefix(path: Seq<char>, base: Seq<char>) -> Option<Seq<char>>;

/// Calls `std::path::Path::strip_prefix`. The result is only named: it is
/// the remainder as std computes it, and `None` where std reports that
/// `base` is no prefix.
#[verifier::external_body]
pub(crate) fn strip_prefix(path: &str, base: &str) -> (r: Option<String>)
    ensures
        r.is_some() == path_strip_prefix(path@, base@).is_some(),
        r.is_some() ==> r.unwrap()@ == path_strip_prefix(path@, base@).unwrap(),
{
    std::path::Path::new(path).strip_prefix(base).ok().and_then(|p| p.to_str()).map(
        |p| p.to_string(),
    )
}

/// A file that goes into the snapshot: its path and its text.
pub struct FileEntry {
    pub path: Seq<char>,
    pub content: Seq<char>,
}

/// The path of `path` below `directory`, or all of `path` where it does not
/// lie below it.
pub open spec fn relative_path(directory: Seq<char>, path: Seq<char>) -> Seq<char> {
    match path_strip_prefix(path, directory) {
        Some(rest) => rest,
        None => path,
    }
}

/// The label of a file: the name of the directory that was read, a `/`, and
/// the file's path below that directory.
pub open spec fn label(directory: Seq<char>, path: Seq<char>) -> Seq<char> {
    text_or_empty(path_file_name(directory)) + "/"@ + relative_path(directory, path)
}

/// What stands in a block before the file's text.
pub open spec fn block_head(label: Seq<char>) -> Seq<char> {
    "Path: "@ + label + "\n"@ + "Content:\n"@ + "```\n"@
}

/// What stands in a block after the file's text.
pub open spec fn block_tail() -> Seq<char> {
    "\n```\n"@
}

/// The block of one file: its label, the content marker, and its text
/// between two fences.
pub open spec fn block_text(label: Seq<char>, content: Seq<char>) -> Seq<char> {
    block_head(label) + content + block_tail()
}

/// The files that go into the snapshot from `node` and below, depth first in
/// the order in which the entries were listed. Nothing comes from an entry
/// that the rules leave out, nor from below it.
pub open spec fn files_of(node: &Node, rules: &ExclusionRules) -> Seq<FileEntry>
    decreases node, 0nat,
{
    if path_excluded(node.path_text(), rules) {
        Seq::empty()
    } else {
        match node {
            Node::File { path, content } => seq![FileEntry { path: path@, content: content@ }],
            Node::Dir { children, .. } => kids_files(children@, 0, rules),
        }
    }
}

/// The files that come from the entries of one directory from position
/// `from` on.
pub open spec fn kids_files(kids: Seq<Node>, from: int, rules: &ExclusionRules) -> Seq<FileEntry>
    decreases kids, kids.len() - from,
{
    if from < 0 || from >= kids.len() {
        Seq::empty()
    } else {
        files_of(&kids[from], rules) + kids_files(kids, from + 1, rules)
    }
}

/// The blocks of a run of files, each followed by an empty line.
pub open spec fn blocks_text(directory: Seq<char>, files: Seq<FileEntry>) -> Seq<char>
    decreases files.len(),
{
    if files.len() == 0 {
        Seq::empty()
    } else {
        blocks_text(directory, files.drop_last()) + block_text(
            label(directory, files.last().path),
            files.last().content,
        ) + "\n"@
    }
}

/// The whole snapshot: the diagram, a line break, then the blocks.
pub open spec fn snapshot_text(root: &Node, rules: &ExclusionRules) -> Seq<char> {
    tree_text(lines_of(root, Seq::empty(), true, rules)) + "\n"@ + blocks_text(
        root.path_text(),
        files_of(root, rules),
    )
}

/// The blocks of two runs of files, one after the other, are the blocks of
/// the first followed by the blocks of the second.
pub proof fn blocks_text_concat(directory: Seq<char>, a: Seq<FileEntry>, b: Seq<FileEntry>)
    ensures
        blocks_text(directory, a + b) == blocks_text(directory, a) + blocks_text(directory, b),
    decreases b.len(),
{
    if b.len() == 0 {
        assert(a + b =~= a);
    } else {
        blocks_text_concat(directory, a, b.drop_last());
        assert((a + b).drop_last() =~= a + b.drop_last());
        assert((a + b).last() == b.last());
    }
}

/// The blocks of a single file.
pub proof fn blocks_text_single(directory: Seq<char>, file: FileEntry)
    ensures
        blocks_text(directory, seq![file]) == block_text(
            label(directory, file.path),
            file.content,
        ) + "\n"@,
{
    assert(seq![file].drop_last() =~= Seq::<FileEntry>::empty());
    assert(blocks_text(directory, seq![file]) == blocks_text(directory, seq![file].drop_last())
        + block_text(label(directory, file.path), file.content) + "\n"@);
    assert(blocks_text(directory, Seq::<FileEntry>::empty()) =~= Seq::<char>::empty());
}

/// A file's text stands in its block exactly between the head and the
/// closing fence: cutting both off gives the text back, whatever it holds.
pub proof fn block_holds_content(label: Seq<char>, content: Seq<char>)
    ensures
        block_text(label, content).len() == block_head(label).len() + content.len()
            + block_tail().len(),
        block_text(label, content).subrange(0, block_head(label).len() as int) == block_head(
            label,
        ),
        block_text(label, content).subrange(
            block_head(label).len() as int,
            block_text(label, content).len() - block_tail().len(),
        ) == content,
        block_text(label, content).subrange(
            block_text(label, content).len() - block_tail().len(),
            block_text(label, content).len() as int,
        ) == block_tail(),
{
    let block = block_text(label, content);
    let head = block_head(label);
    assert(block.subrange(0, head.len() as int) =~= head);
    assert(block.subrange(head.len() as int, block.len() - block_tail().len()) =~= content);
    assert(block.subrange(block.len() - block_tail().len(), block.len() as int) =~= block_tail());
}

/// A label from its two parts: the name of the directory that was read, a
/// `/`, and the file's path below that directory.
pub fn join_label(root_name: &str, below: &str) -> (r: String)
    ensures
        r@ == root_name@ + "/"@ + below@,
{
    let mut out = root_name.to_owned();
    out.append("/");
    out.append(below);
    out
}

/// The label under which a file at `path` is written when `directory` was
/// read.
pub fn path_label(directory: &str, path: &str) -> (r: String)
    ensures
        r@ == label(directory@, path@),
{
    let root_name = text_of(file_name(directory));
    match strip_prefix(path, directory) {
        Some(rest) => join_label(root_name.as_str(), rest.as_str()),
        None => join_label(root_name.as_str(), path),
    }
}

/// The block of one file from its label and its text.
pub fn file_block(label: &str, content: &str) -> (block: String)
    ensures
        block@ == block_text(label@, content@),
{
    let mut block = String::new();
    block.append("Path: ");
    block.append(label);
    block.append("\n");
    block.append("Content:\n");
    block.append("```\n");
    block.append(content);
    block.append("\n```\n");
    assert(block@ =~= block_text(label@, content@));
    block
}

/// Appends to `output` the block of the file at `path` with the text
/// `content`, followed by a line break, and returns the block.
pub fn write_file_content(output: &mut String, path: &str, directory: &str, content: &str) -> (block:
    String)
    ensures
        block@ == block_text(label(directory@, path@), content@),
        final(output)@ == old(output)@ + block@ + "\n"@,
{
    let short_path = path_label(directory, path);
    let block = file_block(short_path.as_str(), content);
    output.append(block.as_str());
    output.append("\n");
    block
}

/// Appends to `output` the blocks of the files at `node` and below it that
/// the rules let through, labelled for a reading of `directory`.
pub fn append_contents(node: &Node, directory: &str, output: &mut String, rules: &ExclusionRules)
    ensures
        final(output)@ == old(output)@ + blocks_text(directory@, files_of(node, rules)),
    decreases node,
{
    let ghost before = output@;
    let ghost files = files_of(node, rules);
    if is_excluded(node.path().as_str(), rules) {
        assert(output@ =~= before + blocks_text(directory@, files));
        return ;
    }
    match node {
        Node::File { path, content } => {
            let _ = write_file_content(output, path.as_str(), directory, content.as_str());
            proof {
                blocks_text_single(directory@, FileEntry { path: path@, content: content@ });
                assert(output@ =~= before + blocks_text(directory@, files));
            }
        },
        Node::Dir { children, .. } => {
            assert(before + blocks_text(directory@, files) =~= output@ + blocks_text(
                directory@,
                kids_files(children@, 0, rules),
            ));
            let mut i: usize = 0;
            while i < children.len()
                invariant
                    i <= children.len(),
                    node is Dir,
                    node->children == *children,
                    before + blocks_text(directory@, files) == output@ + blocks_text(
                        directory@,
                        kids_files(children@, i as int, rules),
                    ),
                decreases children.len() - i,
            {
                proof {
                    blocks_text_concat(
                        directory@,
                        files_of(&children@[i as int], rules),
                        kids_files(children@, i as int + 1, rules),
                    );
                }
                append_contents(&children[i], directory, output, rules);
                assert(before + blocks_text(directory@, files) =~= output@ + blocks_text(
                    directory@,
                    kids_files(children@, i as int + 1, rules),
                ));
                i += 1;
            }
            assert(output@ =~= before + blocks_text(directory@, files));
        },
    }
}

/// The blocks of all files under `root` that the rules let through, in the
/// order of the walk, labelled by the root's own name.
pub fn concatenate_contents(root: &Node, rules: &ExclusionRules) -> (text: String)
    ensures
        text@ == blocks_text(root.path_text(), files_of(root, rules)),
{
    let mut text = String::new();
    append_contents(root, root.path().as_str(), &mut text, rules);
    assert(text@ =~= blocks_text(root.path_text(), files_of(root, rules)));
    text
}

/// The whole snapshot of `root`: its diagram, a line break, and the blocks
/// of its files.
pub fn snapshot(root: &Node, rules: &ExclusionRules) -> (text: String)
    ensures
        text@ == snapshot_text(root, rules),
{
    let mut text = generate_tree_structure(root, rules);
    text.append("\n");
    append_contents(root, root.path().as_str(), &mut text, rules);
    text
}

} // verus!

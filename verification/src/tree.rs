//! The directory as a value, and the diagram that is drawn of it.

use vstd::prelude::*;
use crate::rules::{ExclusionRules, file_name, is_excluded, path_excluded, path_file_name};

verus! {

/// One entry of a directory that was read: a file with its text, or a
/// directory with its entries in the order in which they were listed. Each
/// holds its whole path as text.
pub enum Node {
    File { path: String, content: String },
    Dir { path: String, children: Vec<Node> },
}

impl Node {
    /// The text of the entry's path.
    pub open spec fn path_text(&self) -> Seq<char> {
        match self {
            Node::File { path, .. } => path@,
            Node::Dir { path, .. } => path@,
        }
    }

    /// The entry's path.
    pub fn path(&self) -> (r: &String)
        ensures
            r@ == self.path_text(),
    {
        match self {
            Node::File { path, .. } => path,
            Node::Dir { path, .. } => path,
        }
    }

    /// Whether the entry is a directory.
    pub fn is_dir(&self) -> (r: bool)
        ensures
            r == (self is Dir),
    {
        match self {
            Node::File { .. } => false,
            Node::Dir { .. } => true,
        }
    }
}

/// One line of the diagram: the indentation handed down from the levels
/// above, whether the entry is the last shown of its directory, whether it
/// is a directory, its name, and the path of the entry that it stands for.
pub struct TreeLine {
    pub indent: Seq<char>,
    pub last: bool,
    pub folder: bool,
    pub name: Seq<char>,
    pub path: Seq<char>,
}

/// The glyph in front of an entry's name.
pub open spec fn branch(last: bool) -> Seq<char> {
    if last {
        "└── "@
    } else {
        "├── "@
    }
}

/// What an entry adds to the indentation of the entries below it.
pub open spec fn continuation(last: bool) -> Seq<char> {
    if last {
        "    "@
    } else {
        "│   "@
    }
}

/// The marker in front of a directory's name; nothing in front of a file's.
pub open spec fn marker(folder: bool) -> Seq<char> {
    if folder {
        "📁"@
    } else {
        Seq::empty()
    }
}

/// The characters of one line, its line break included.
pub open spec fn line_text(line: TreeLine) -> Seq<char> {
    line.indent + branch(line.last) + marker(line.folder) + line.name + "\n"@
}

/// The characters of a run of lines.
pub open spec fn tree_text(lines: Seq<TreeLine>) -> Seq<char>
    decreases lines.len(),
{
    if lines.len() == 0 {
        Seq::empty()
    } else {
        tree_text(lines.drop_last()) + line_text(lines.last())
    }
}

/// An entry is drawn where the rules let it through.
pub open spec fn shown(node: &Node, rules: &ExclusionRules) -> bool {
    !path_excluded(node.path_text(), rules)
}

/// The name under which an entry is drawn: the final name of its path, or
/// the whole path where it has none, as the paths `.`, `..` and `/` have
/// none.
pub open spec fn shown_name(path: Seq<char>) -> Seq<char> {
    match path_file_name(path) {
        Some(name) => name,
        None => path,
    }
}

/// No entry after position `i` gets past the rules: the entry at `i`, if it
/// gets past them itself, is the last of its directory. Entries that the
/// rules leave out do not count.
pub open spec fn last_kept(kids: Seq<Node>, i: int, rules: &ExclusionRules) -> bool {
    forall|j: int| i < j < kids.len() ==> path_excluded((#[trigger] kids[j]).path_text(), rules)
}

/// The line that stands for `node`.
pub open spec fn line_of(node: &Node, indent: Seq<char>, last: bool) -> TreeLine {
    TreeLine {
        indent,
        last,
        folder: node is Dir,
        name: shown_name(node.path_text()),
        path: node.path_text(),
    }
}

/// The lines drawn for `node` and all below it, depth first: its own line,
/// then those of its entries under a longer indentation. An entry that is
/// not shown gives no line, and nothing below it does.
pub open spec fn lines_of(node: &Node, indent: Seq<char>, last: bool, rules: &ExclusionRules) -> Seq<
    TreeLine,
>
    decreases node, 0nat,
{
    if !shown(node, rules) {
        Seq::empty()
    } else {
        match node {
            Node::File { .. } => seq![line_of(node, indent, last)],
            Node::Dir { children, .. } => seq![line_of(node, indent, last)] + kids_lines(
                children@,
                0,
                indent + continuation(last),
                rules,
            ),
        }
    }
}

/// The lines drawn for the entries of one directory from position `from`
/// on, each marked as last exactly where no later entry gets past the rules.
pub open spec fn kids_lines(kids: Seq<Node>, from: int, indent: Seq<char>, rules: &ExclusionRules) -> Seq<
    TreeLine,
>
    decreases kids, kids.len() - from,
{
    if from < 0 || from >= kids.len() {
        Seq::empty()
    } else {
        lines_of(&kids[from], indent, last_kept(kids, from, rules), rules) + kids_lines(
            kids,
            from + 1,
            indent,
            rules,
        )
    }
}

/// The text of two runs of lines, one after the other, is the text of the
/// first followed by the text of the second.
pub proof fn tree_text_concat(a: Seq<TreeLine>, b: Seq<TreeLine>)
    ensures
        tree_text(a + b) == tree_text(a) + tree_text(b),
    decreases b.len(),
{
    if b.len() == 0 {
        assert(a + b =~= a);
    } else {
        tree_text_concat(a, b.drop_last());
        assert((a + b).drop_last() =~= a + b.drop_last());
        assert((a + b).last() == b.last());
    }
}

/// The text of a single line as a run of one.
pub proof fn tree_text_single(line: TreeLine)
    ensures
        tree_text(seq![line]) == line_text(line),
{
    assert(seq![line].drop_last() =~= Seq::<TreeLine>::empty());
    assert(tree_text(seq![line]) == tree_text(seq![line].drop_last()) + line_text(line));
    assert(tree_text(Seq::<TreeLine>::empty()) =~= Seq::<char>::empty());
}

/// The position of the last entry that the rules let through, if any does.
pub fn last_included(kids: &Vec<Node>, rules: &ExclusionRules) -> (r: Option<usize>)
    ensures
        match r {
            Some(k) => k < kids.len() && !path_excluded(kids@[k as int].path_text(), rules)
                && last_kept(kids@, k as int, rules),
            None => last_kept(kids@, -1, rules),
        },
{
    let mut i: usize = kids.len();
    while i > 0
        invariant
            i <= kids.len(),
            last_kept(kids@, i as int - 1, rules),
        decreases i,
    {
        i -= 1;
        if !is_excluded(kids[i].path().as_str(), rules) {
            return Some(i);
        }
    }
    None
}

/// The name under which the entry at `path` is drawn.
pub fn name_to_show(path: &str) -> (name: String)
    ensures
        name@ == shown_name(path@),
{
    match file_name(path) {
        Some(name) => name,
        None => path.to_owned(),
    }
}

/// One line of the diagram: the prefix, the branch glyph, the folder marker
/// for a directory, the name and a line break.
pub fn entry_line(prefix: &str, is_last: bool, folder: bool, name: &str) -> (line: String)
    ensures
        line@ == prefix@ + branch(is_last) + marker(folder) + name@ + "\n"@,
{
    let mut line = prefix.to_owned();
    if is_last {
        line.append("└── ");
    } else {
        line.append("├── ");
    }
    if folder {
        line.append("📁");
    } else {
        assert(line@ + marker(folder) =~= line@);
    }
    line.append(name);
    line.append("\n");
    line
}

/// The prefix of the lines below an entry that was drawn behind `prefix`.
pub fn inner_prefix(prefix: &str, is_last: bool) -> (inner: String)
    ensures
        inner@ == prefix@ + continuation(is_last),
{
    let mut inner = prefix.to_owned();
    if is_last {
        inner.append("    ");
    } else {
        inner.append("│   ");
    }
    inner
}

/// Appends to `tree` the lines of `node` and of all below it, each line
/// behind `prefix`, with the branch glyph of a last entry where `is_last`
/// holds.
pub fn build_tree(node: &Node, tree: &mut String, prefix: &str, is_last: bool, rules: &ExclusionRules)
    ensures
        final(tree)@ == old(tree)@ + tree_text(lines_of(node, prefix@, is_last, rules)),
    decreases node,
{
    let ghost before = tree@;
    let ghost lines = lines_of(node, prefix@, is_last, rules);
    let path = node.path();
    if is_excluded(path.as_str(), rules) {
        assert(tree@ =~= before + tree_text(lines));
        return ;
    }
    let ghost line = line_of(node, prefix@, is_last);
    let name = name_to_show(path.as_str());
    let own = entry_line(prefix, is_last, node.is_dir(), name.as_str());
    tree.append(own.as_str());
    proof {
        tree_text_single(line);
        assert(tree@ =~= before + line_text(line));
    }
    match node {
        Node::File { .. } => {},
        Node::Dir { children, .. } => {
            let inner = inner_prefix(prefix, is_last);
            let last = last_included(children, rules);
            proof {
                tree_text_concat(seq![line], kids_lines(children@, 0, inner@, rules));
                assert(before + tree_text(lines) =~= tree@ + tree_text(
                    kids_lines(children@, 0, inner@, rules),
                ));
            }
            let mut i: usize = 0;
            while i < children.len()
                invariant
                    i <= children.len(),
                    node is Dir,
                    node->children == *children,
                    before + tree_text(lines) == tree@ + tree_text(
                        kids_lines(children@, i as int, inner@, rules),
                    ),
                    match last {
                        Some(k) => k < children.len() && !path_excluded(
                            children@[k as int].path_text(),
                            rules,
                        ) && last_kept(children@, k as int, rules),
                        None => last_kept(children@, -1, rules),
                    },
                decreases children.len() - i,
            {
                let flag = match last {
                    Some(k) => k == i,
                    None => false,
                };
                let ghost exact = last_kept(children@, i as int, rules);
                proof {
                    let kid = &children@[i as int];
                    if !path_excluded(kid.path_text(), rules) {
                        assert(flag == exact);
                    } else {
                        assert(lines_of(kid, inner@, flag, rules) == lines_of(kid, inner@, exact, rules));
                    }
                    tree_text_concat(
                        lines_of(kid, inner@, exact, rules),
                        kids_lines(children@, i as int + 1, inner@, rules),
                    );
                }
                build_tree(&children[i], tree, inner.as_str(), flag, rules);
                assert(before + tree_text(lines) =~= tree@ + tree_text(
                    kids_lines(children@, i as int + 1, inner@, rules),
                ));
                i += 1;
            }
            assert(tree@ =~= before + tree_text(lines));
        },
    }
}

/// The diagram of the directory `root`: the root's own line first, drawn as
/// a last entry with no indentation, then everything below it.
pub fn generate_tree_structure(root: &Node, rules: &ExclusionRules) -> (tree: String)
    ensures
        tree@ == tree_text(lines_of(root, Seq::empty(), true, rules)),
{
    let mut tree = String::new();
    let prefix = String::new();
    build_tree(root, &mut tree, prefix.as_str(), true, rules);
    assert(tree@ =~= tree_text(lines_of(root, Seq::empty(), true, rules)));
    tree
}

} // verus!

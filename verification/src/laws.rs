//! What holds between the diagram and the blocks, and of the branch glyphs.

use vstd::prelude::*;
use crate::content::{
    FileEntry,
    block_head,
    block_tail,
    block_text,
    blocks_text,
    blocks_text_concat,
    blocks_text_single,
    files_of,
    kids_files,
    label,
};
use crate::rules::{ExclusionRules, is_substring, path_excluded};
use crate::tree::{
    Node,
    TreeLine,
    branch,
    continuation,
    kids_lines,
    last_kept,
    line_of,
    line_text,
    lines_of,
    shown,
    tree_text,
    tree_text_concat,
    tree_text_single,
};

verus! {

/// The paths of the files among a run of lines, in the order of the lines.
pub open spec fn leaf_paths(lines: Seq<TreeLine>) -> Seq<Seq<char>>
    decreases lines.len(),
{
    if lines.len() == 0 {
        Seq::empty()
    } else if lines.last().folder {
        leaf_paths(lines.drop_last())
    } else {
        leaf_paths(lines.drop_last()).push(lines.last().path)
    }
}

/// The paths of a run of files.
pub open spec fn file_paths(files: Seq<FileEntry>) -> Seq<Seq<char>> {
    Seq::new(files.len(), |i: int| files[i].path)
}

/// The file paths of two runs of lines, one after the other.
pub proof fn leaf_paths_concat(a: Seq<TreeLine>, b: Seq<TreeLine>)
    ensures
        leaf_paths(a + b) == leaf_paths(a) + leaf_paths(b),
    decreases b.len(),
{
    if b.len() == 0 {
        assert(a + b =~= a);
        assert(leaf_paths(a) + leaf_paths(b) =~= leaf_paths(a));
    } else {
        leaf_paths_concat(a, b.drop_last());
        assert((a + b).drop_last() =~= a + b.drop_last());
        assert((a + b).last() == b.last());
        assert(leaf_paths(a + b) =~= leaf_paths(a) + leaf_paths(b));
    }
}

proof fn kids_agree(kids: Seq<Node>, from: int, indent: Seq<char>, rules: &ExclusionRules)
    requires
        0 <= from <= kids.len(),
    ensures
        leaf_paths(kids_lines(kids, from, indent, rules)) == file_paths(
            kids_files(kids, from, rules),
        ),
    decreases kids, kids.len() - from,
{
    if from >= kids.len() {
        assert(file_paths(kids_files(kids, from, rules)) =~= Seq::<Seq<char>>::empty());
    } else {
        let flag = last_kept(kids, from, rules);
        tree_and_content_agree(&kids[from], indent, flag, rules);
        kids_agree(kids, from + 1, indent, rules);
        leaf_paths_concat(
            lines_of(&kids[from], indent, flag, rules),
            kids_lines(kids, from + 1, indent, rules),
        );
        assert(file_paths(kids_files(kids, from, rules)) =~= file_paths(
            files_of(&kids[from], rules),
        ) + file_paths(kids_files(kids, from + 1, rules)));
    }
}

/// The diagram and the blocks show the same files: the files that get a
/// line in the diagram are, in the same order, the files that get a block.
pub proof fn tree_and_content_agree(
    root: &Node,
    indent: Seq<char>,
    last: bool,
    rules: &ExclusionRules,
)
    ensures
        leaf_paths(lines_of(root, indent, last, rules)) == file_paths(files_of(root, rules)),
    decreases root, 0nat,
{
    if path_excluded(root.path_text(), rules) {
        assert(file_paths(files_of(root, rules)) =~= Seq::<Seq<char>>::empty());
    } else {
        let line = line_of(root, indent, last);
        assert(seq![line].drop_last() =~= Seq::<TreeLine>::empty());
        assert(leaf_paths(Seq::<TreeLine>::empty()) =~= Seq::<Seq<char>>::empty());
        assert(seq![line].last() == line);
        match root {
            Node::File { path, content } => {
                assert(leaf_paths(seq![line]) =~= seq![path@]);
                assert(file_paths(files_of(root, rules)) =~= seq![path@]);
            },
            Node::Dir { children, .. } => {
                let inner = indent + continuation(last);
                kids_agree(children@, 0, inner, rules);
                leaf_paths_concat(seq![line], kids_lines(children@, 0, inner, rules));
                assert(leaf_paths(seq![line]) =~= Seq::<Seq<char>>::empty());
                assert(leaf_paths(lines_of(root, indent, last, rules)) =~= file_paths(
                    files_of(root, rules),
                ));
            },
        }
    }
}

/// An entry that the rules leave out gives no line and no block, and
/// neither does anything below it.
pub proof fn excluded_leaves_nothing(
    node: &Node,
    indent: Seq<char>,
    last: bool,
    rules: &ExclusionRules,
)
    ensures
        path_excluded(node.path_text(), rules) ==> lines_of(node, indent, last, rules).len() == 0
            && files_of(node, rules).len() == 0,
{
}

/// Of the entries of one directory that the rules let through, at most one
/// is marked as last, and none that has such an entry after it.
pub proof fn one_last_branch(kids: Seq<Node>, i: int, j: int, rules: &ExclusionRules)
    requires
        0 <= i < j < kids.len(),
        !path_excluded(kids[j].path_text(), rules),
    ensures
        !last_kept(kids, i, rules),
{
}

proof fn last_branch_below(kids: Seq<Node>, n: int, rules: &ExclusionRules) -> (k: int)
    requires
        0 <= n <= kids.len(),
        last_kept(kids, n - 1, rules),
        exists|i: int| 0 <= i < kids.len() && !path_excluded((#[trigger] kids[i]).path_text(), rules),
    ensures
        0 <= k < kids.len(),
        !path_excluded(kids[k].path_text(), rules),
        last_kept(kids, k, rules),
    decreases n,
{
    if n == 0 {
        let i = choose|i: int|
            0 <= i < kids.len() && !path_excluded((#[trigger] kids[i]).path_text(), rules);
        assert(false);
        0
    } else if !path_excluded(kids[n - 1].path_text(), rules) {
        n - 1
    } else {
        last_branch_below(kids, n - 1, rules)
    }
}

/// Where the rules let any entry of a directory through, one of those is
/// marked as last.
pub proof fn some_last_branch(kids: Seq<Node>, rules: &ExclusionRules) -> (k: int)
    requires
        exists|i: int| 0 <= i < kids.len() && !path_excluded((#[trigger] kids[i]).path_text(), rules),
    ensures
        0 <= k < kids.len(),
        !path_excluded(kids[k].path_text(), rules),
        last_kept(kids, k, rules),
{
    last_branch_below(kids, kids.len() as int, rules)
}

/// The lines of an entry that is shown begin with the entry's own line.
pub proof fn own_line_first(node: &Node, indent: Seq<char>, last: bool, rules: &ExclusionRules)
    ensures
        shown(node, rules) ==> ({
            let lines = lines_of(node, indent, last, rules);
            &&& lines.len() > 0
            &&& lines[0] == line_of(node, indent, last)
            &&& line_text(lines[0]).is_prefix_of(tree_text(lines))
        }),
{
    if shown(node, rules) {
        let lines = lines_of(node, indent, last, rules);
        let line = line_of(node, indent, last);
        let rest = lines.subrange(1, lines.len() as int);
        assert(lines =~= seq![line] + rest);
        tree_text_concat(seq![line], rest);
        tree_text_single(line);
        assert(tree_text(lines).subrange(0, line_text(line).len() as int) =~= line_text(line));
    }
}

/// The diagram of a root that is shown begins with the root's line, drawn
/// as a last entry without indentation.
pub proof fn root_line_first(root: &Node, rules: &ExclusionRules)
    ensures
        shown(root, rules) ==> line_text(line_of(root, Seq::empty(), true)).is_prefix_of(
            tree_text(lines_of(root, Seq::empty(), true, rules)),
        ),
{
    own_line_first(root, Seq::empty(), true, rules);
}

/// Below a directory, the lines of an entry that is shown start with the
/// indentation and the branch glyph: that of a last entry exactly where no
/// later entry of the directory gets past the rules, the other glyph
/// everywhere else.
pub proof fn branch_glyph_of_entry(kids: Seq<Node>, i: int, indent: Seq<char>, rules: &ExclusionRules)
    requires
        0 <= i < kids.len(),
    ensures
        shown(&kids[i], rules) ==> ({
            let flag = last_kept(kids, i, rules);
            let lines = lines_of(&kids[i], indent, flag, rules);
            &&& lines.len() > 0
            &&& lines[0].last == flag
            &&& lines[0].indent == indent
            &&& (indent + branch(flag)).is_prefix_of(tree_text(lines))
        }),
{
    if shown(&kids[i], rules) {
        let flag = last_kept(kids, i, rules);
        let lines = lines_of(&kids[i], indent, flag, rules);
        own_line_first(&kids[i], indent, flag, rules);
        let head = indent + branch(flag);
        assert(line_text(lines[0]).subrange(0, head.len() as int) =~= head);
        assert(tree_text(lines).subrange(0, head.len() as int) =~= head) by {
            let whole = line_text(lines[0]);
            assert(tree_text(lines).subrange(0, whole.len() as int) == whole);
            assert(tree_text(lines).subrange(0, head.len() as int) =~= whole.subrange(
                0,
                head.len() as int,
            ));
        }
    }
}

/// Every file's text can be cut out of the blocks again: the block of the
/// file at position `k` starts where the blocks of the files before it end,
/// and the file's text stands in it unchanged between the block's head and
/// its closing fence.
pub proof fn file_text_in_blocks(directory: Seq<char>, files: Seq<FileEntry>, k: int)
    requires
        0 <= k < files.len(),
    ensures
        ({
            let all = blocks_text(directory, files);
            let start = blocks_text(directory, files.take(k)).len() as int;
            let head = block_head(label(directory, files[k].path));
            let text = files[k].content;
            let end = start + head.len() + text.len();
            &&& end + block_tail().len() <= all.len()
            &&& all.subrange(start, start + head.len()) == head
            &&& all.subrange(start + head.len(), end) == text
            &&& all.subrange(end, end + block_tail().len()) == block_tail()
        }),
{
    let front = files.take(k);
    let back = files.skip(k + 1);
    let one = seq![files[k]];
    assert(files =~= (front + one) + back);
    blocks_text_concat(directory, front + one, back);
    blocks_text_concat(directory, front, one);
    blocks_text_single(directory, files[k]);
    let all = blocks_text(directory, files);
    let start = blocks_text(directory, front).len() as int;
    let head = block_head(label(directory, files[k].path));
    let text = files[k].content;
    let end = start + head.len() + text.len();
    let block = block_text(label(directory, files[k].path), text);
    assert(all == (blocks_text(directory, front) + (block + "\n"@)) + blocks_text(directory, back));
    assert(block == head + text + block_tail());
    assert(all.subrange(start, start + head.len()) =~= head);
    assert(all.subrange(start + head.len(), end) =~= text);
    assert(all.subrange(end, end + block_tail().len()) =~= block_tail());
}

/// The number of entries at `node` and below that are drawn: none where
/// the rules leave `node` out, else `node` itself and those of its entries.
pub open spec fn kept_entries(node: &Node, rules: &ExclusionRules) -> nat
    decreases node, 0nat,
{
    if path_excluded(node.path_text(), rules) {
        0
    } else {
        match node {
            Node::File { .. } => 1,
            Node::Dir { children, .. } => 1 + kids_kept(children@, 0, rules),
        }
    }
}

/// The number of entries that are drawn from the entries of one directory
/// from position `from` on.
pub open spec fn kids_kept(kids: Seq<Node>, from: int, rules: &ExclusionRules) -> nat
    decreases kids, kids.len() - from,
{
    if from < 0 || from >= kids.len() {
        0
    } else {
        kept_entries(&kids[from], rules) + kids_kept(kids, from + 1, rules)
    }
}

/// The number of entries at `node` and below, `node` included.
pub open spec fn entry_count(node: &Node) -> nat
    decreases node, 0nat,
{
    match node {
        Node::File { .. } => 1,
        Node::Dir { children, .. } => 1 + kids_count(children@, 0),
    }
}

/// The number of entries at and below the entries of one directory from
/// position `from` on.
pub open spec fn kids_count(kids: Seq<Node>, from: int) -> nat
    decreases kids, kids.len() - from,
{
    if from < 0 || from >= kids.len() {
        0
    } else {
        entry_count(&kids[from]) + kids_count(kids, from + 1)
    }
}

/// Every entry of `list` is the empty text.
pub open spec fn only_empty(list: Seq<String>) -> bool {
    forall|k: int| 0 <= k < list.len() ==> (#[trigger] list[k])@.len() == 0
}

proof fn kids_line_count(kids: Seq<Node>, from: int, indent: Seq<char>, rules: &ExclusionRules)
    requires
        0 <= from <= kids.len(),
    ensures
        kids_lines(kids, from, indent, rules).len() == kids_kept(kids, from, rules),
    decreases kids, kids.len() - from,
{
    if from < kids.len() {
        one_line_per_entry(&kids[from], indent, last_kept(kids, from, rules), rules);
        kids_line_count(kids, from + 1, indent, rules);
    }
}

/// The diagram has one line for each entry that is drawn: an entry that the
/// rules let through, below directories that they let through.
pub proof fn one_line_per_entry(node: &Node, indent: Seq<char>, last: bool, rules: &ExclusionRules)
    ensures
        lines_of(node, indent, last, rules).len() == kept_entries(node, rules),
    decreases node, 0nat,
{
    if !path_excluded(node.path_text(), rules) {
        match node {
            Node::File { .. } => {},
            Node::Dir { children, .. } => {
                kids_line_count(children@, 0, indent + continuation(last), rules);
            },
        }
    }
}

proof fn kids_all_kept(kids: Seq<Node>, from: int, rules: &ExclusionRules)
    requires
        0 <= from <= kids.len(),
        only_empty(rules.folders@),
        only_empty(rules.files@),
        only_empty(rules.extensions@),
    ensures
        kids_kept(kids, from, rules) == kids_count(kids, from),
    decreases kids, kids.len() - from,
{
    if from < kids.len() {
        nothing_left_out(&kids[from], rules);
        kids_all_kept(kids, from + 1, rules);
    }
}

/// Rules that hold nothing but empty entries leave nothing out: every entry
/// at `node` and below is drawn.
pub proof fn nothing_left_out(node: &Node, rules: &ExclusionRules)
    requires
        only_empty(rules.folders@),
        only_empty(rules.files@),
        only_empty(rules.extensions@),
    ensures
        !path_excluded(node.path_text(), rules),
        kept_entries(node, rules) == entry_count(node),
    decreases node, 0nat,
{
    match node {
        Node::File { .. } => {},
        Node::Dir { children, .. } => {
            kids_all_kept(children@, 0, rules);
        },
    }
}

/// The marker with which every block begins.
pub open spec fn path_marker() -> Seq<char> {
    "Path: "@
}

/// `pattern` stands in `text` at position `i`.
pub open spec fn occurs_at(text: Seq<char>, pattern: Seq<char>, i: int) -> bool {
    0 <= i && i + pattern.len() <= text.len() && text.subrange(i, i + pattern.len()) == pattern
}

/// One file's share of the blocks: its block and the line break after it.
pub open spec fn unit_text(label: Seq<char>, content: Seq<char>) -> Seq<char> {
    block_text(label, content) + "\n"@
}

/// Neither the label nor the text of any of the files holds the marker.
pub open spec fn marker_free(directory: Seq<char>, files: Seq<FileEntry>) -> bool {
    forall|k: int|
        0 <= k < files.len() ==> !is_substring(
            path_marker(),
            label(directory, (#[trigger] files[k]).path),
        ) && !is_substring(path_marker(), files[k].content)
}

/// Where the block of the file at position `k` starts in the blocks.
pub open spec fn block_start(directory: Seq<char>, files: Seq<FileEntry>, k: int) -> int {
    blocks_text(directory, files.take(k)).len() as int
}

/// Position `i` is where the block of one of the files starts.
pub open spec fn is_block_start(directory: Seq<char>, files: Seq<FileEntry>, i: int) -> bool {
    exists|k: int| 0 <= k < files.len() && i == #[trigger] block_start(directory, files, k)
}

proof fn marker_chars()
    ensures
        path_marker().len() == 6,
        path_marker()[0] == 'P',
        forall|t: int| 0 <= t < 6 ==> path_marker()[t] != '\n',
        forall|t: int| 1 <= t < 6 ==> path_marker()[t] != 'P',
{
    reveal_strlit("Path: ");
}

proof fn no_start_inside(x: Seq<char>, y: Seq<char>, z: Seq<char>, m: Seq<char>, j: int)
    requires
        !is_substring(m, y),
        z.len() > 0,
        forall|t: int| 0 <= t < m.len() ==> m[t] != z[0],
        x.len() <= j < x.len() + y.len(),
    ensures
        !occurs_at((x + y) + z, m, j),
{
    let s = (x + y) + z;
    if occurs_at(s, m, j) {
        if j + m.len() <= x.len() + y.len() {
            let i = j - x.len();
            assert(y.subrange(i, i + m.len()) =~= s.subrange(j, j + m.len()));
            assert(false);
        } else {
            let edge = (x.len() + y.len()) as int;
            let t = edge - j;
            assert(s.subrange(j, j + m.len())[t] == s[edge]);
            assert(s[edge] == z[0]);
            assert(false);
        }
    }
}

proof fn occurs_across(a: Seq<char>, b: Seq<char>, m: Seq<char>, i: int)
    requires
        a.len() == 0 || forall|t: int| 0 <= t < m.len() ==> m[t] != a.last(),
    ensures
        occurs_at(a + b, m, i) <==> (occurs_at(a, m, i) || (i >= a.len() && occurs_at(
            b,
            m,
            i - a.len(),
        ))),
{
    let s = a + b;
    if occurs_at(a, m, i) {
        assert(s.subrange(i, i + m.len()) =~= a.subrange(i, i + m.len()));
    }
    if i >= a.len() && occurs_at(b, m, i - a.len()) {
        assert(s.subrange(i, i + m.len()) =~= b.subrange(i - a.len(), i - a.len() + m.len()));
    }
    if occurs_at(s, m, i) {
        if i + m.len() <= a.len() {
            assert(a.subrange(i, i + m.len()) =~= s.subrange(i, i + m.len()));
        } else if i >= a.len() {
            assert(b.subrange(i - a.len(), i - a.len() + m.len()) =~= s.subrange(i, i + m.len()));
        } else {
            let t = a.len() - 1 - i;
            assert(s.subrange(i, i + m.len())[t] == s[a.len() - 1]);
            assert(s[a.len() - 1] == a.last());
            assert(false);
        }
    }
}

proof fn unit_marker_only_first(label: Seq<char>, content: Seq<char>, j: int)
    requires
        !is_substring(path_marker(), label),
        !is_substring(path_marker(), content),
    ensures
        occurs_at(unit_text(label, content), path_marker(), j) <==> j == 0,
        unit_text(label, content).len() > 0,
        unit_text(label, content).last() == '\n',
{
    marker_chars();
    reveal_strlit("\n");
    reveal_strlit("Content:\n");
    reveal_strlit("```\n");
    reveal_strlit("\n```\n");
    let m = path_marker();
    let unit = unit_text(label, content);
    let glue = "\n"@ + "Content:\n"@ + "```\n"@;
    let end = "\n```\n"@ + "\n"@;
    assert(glue.len() == 14 && glue[0] == '\n');
    assert(forall|t: int| 0 <= t < 14 ==> glue[t] != 'P');
    assert(end.len() == 6 && end[0] == '\n' && end[5] == '\n');
    assert(forall|t: int| 0 <= t < 6 ==> end[t] != 'P');
    let after_label = glue + content + end;
    let before_content = m + label + glue;
    assert(unit =~= (m + label) + after_label);
    assert(unit =~= (before_content + content) + end);
    assert(unit.subrange(0, 6) =~= m);
    if j != 0 && occurs_at(unit, m, j) {
        assert(unit.subrange(j, j + 6)[0] == unit[j]);
        assert(unit[j] == 'P');
        let l = label.len() as int;
        let c = content.len() as int;
        if j < 6 {
            assert(unit[j] == m[j]);
        } else if j < 6 + l {
            no_start_inside(m, label, after_label, m, j);
        } else if j < 6 + l + 14 {
            assert(unit[j] == glue[j - 6 - l]);
        } else if j < 6 + l + 14 + c {
            no_start_inside(before_content, content, end, m, j);
        } else {
            assert(unit[j] == end[j - 6 - l - 14 - c]);
        }
        assert(false);
    }
}

/// In the blocks of files whose labels and texts do not hold the marker
/// themselves, the marker stands exactly where a block starts: cutting the
/// blocks at the marker gives one piece for each file, in order, and by
/// `file_text_in_blocks` the file's text stands unchanged in its piece.
pub proof fn marker_only_at_block_starts(directory: Seq<char>, files: Seq<FileEntry>, i: int)
    ensures
        marker_free(directory, files) ==> (occurs_at(
            blocks_text(directory, files),
            path_marker(),
            i,
        ) <==> is_block_start(directory, files, i)),
        files.len() > 0 ==> blocks_text(directory, files).len() > 0 && blocks_text(
            directory,
            files,
        ).last() == '\n',
    decreases files.len(),
{
    reveal_strlit("\n");
    if files.len() > 0 {
        let n = files.len() as int;
        let front = files.drop_last();
        let f = files.last();
        let a = blocks_text(directory, front);
        let unit = unit_text(label(directory, f.path), f.content);
        let all = blocks_text(directory, files);
        assert(all =~= a + unit);
        assert(all.last() == '\n');
        if marker_free(directory, files) {
            let m = path_marker();
            marker_chars();
            assert(marker_free(directory, front)) by {
                assert forall|k: int| 0 <= k < front.len() implies !is_substring(
                    m,
                    label(directory, (#[trigger] front[k]).path),
                ) && !is_substring(m, front[k].content) by {
                    assert(front[k] == files[k]);
                }
            }
            marker_only_at_block_starts(directory, front, i);
            unit_marker_only_first(label(directory, f.path), f.content, i - a.len());
            occurs_across(a, unit, m, i);
            assert(files.take(n - 1) =~= front);
            assert(block_start(directory, files, n - 1) == a.len());
            assert forall|k: int| 0 <= k < n - 1 implies block_start(directory, files, k)
                == block_start(directory, front, k) by {
                assert(files.take(k) =~= front.take(k));
            }
            if is_block_start(directory, files, i) {
                let k = choose|k: int| 0 <= k < n && i == #[trigger] block_start(directory, files, k);
                if k < n - 1 {
                    assert(i == block_start(directory, front, k));
                    assert(is_block_start(directory, front, i));
                }
                assert(occurs_at(all, m, i));
            }
            if occurs_at(all, m, i) {
                if occurs_at(a, m, i) {
                    let k = choose|k: int|
                        0 <= k < front.len() && i == #[trigger] block_start(directory, front, k);
                    assert(i == block_start(directory, files, k));
                } else {
                    assert(i == block_start(directory, files, n - 1));
                }
                assert(is_block_start(directory, files, i));
            }
        }
    } else {
        assert(!is_block_start(directory, files, i));
        marker_chars();
    }
}

/// Each file adds its block and a line break to the end of the blocks, as
/// one more writing of a file's content does.
pub proof fn blocks_grow_by_one(directory: Seq<char>, files: Seq<FileEntry>, file: FileEntry)
    ensures
        blocks_text(directory, files.push(file)) == blocks_text(directory, files) + unit_text(
            label(directory, file.path),
            file.content,
        ),
{
    assert(files.push(file).drop_last() =~= files);
    assert(blocks_text(directory, files.push(file)) =~= blocks_text(directory, files) + unit_text(
        label(directory, file.path),
        file.content,
    ));
}

/// The piece of the blocks that belongs to the file at position `k` is its
/// block and a line break, and it reaches to where the next block starts.
pub proof fn piece_of_file(directory: Seq<char>, files: Seq<FileEntry>, k: int)
    requires
        0 <= k < files.len(),
    ensures
        ({
            let all = blocks_text(directory, files);
            let unit = unit_text(label(directory, files[k].path), files[k].content);
            let start = block_start(directory, files, k);
            &&& block_start(directory, files, k + 1) == start + unit.len()
            &&& start + unit.len() <= all.len()
            &&& all.subrange(start, start + unit.len()) == unit
        }),
{
    let upto = files.take(k + 1);
    let back = files.skip(k + 1);
    assert(upto =~= files.take(k).push(files[k]));
    blocks_grow_by_one(directory, files.take(k), files[k]);
    assert(files =~= upto + back);
    blocks_text_concat(directory, upto, back);
    let all = blocks_text(directory, files);
    let unit = unit_text(label(directory, files[k].path), files[k].content);
    let start = block_start(directory, files, k);
    assert(all.subrange(start, start + unit.len()) =~= unit);
}

} // verus!

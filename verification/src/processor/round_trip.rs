//! What the writer writes, the reader reads back.

use crate::node::Node;
use crate::processor::reader::classify;
use crate::processor::reader::lemma_parse_scope_advances;
use crate::processor::reader::parse_scope;
use crate::processor::reader::scan;
use crate::processor::reader::Line;
use crate::processor::reader::tokens;
use crate::processor::writer::body;
use crate::processor::writer::document;
use crate::processor::writer::body_prefix;
use crate::processor::writer::footer_text;
use crate::processor::writer::header_text;
use crate::processor::writer::key_text;
use crate::processor::writer::quoted;
use crate::processor::writer::value_line;
use crate::processor::writer::value_list;
use crate::text::is_whitespace;
use crate::text::lemma_first_index;
use crate::text::lemma_trim_end;
use crate::text::lemma_trim_start;
use crate::text::trim_end;
use crate::text::trim_start;
use crate::text::trimmed;
use vstd::prelude::*;

verus! {

/// A value that a list gives back as it is: it holds no quote character,
/// and no white space at its ends.
pub open spec fn plain(value: Seq<char>) -> bool {
    !value.contains('"') && trimmed(value) == value
}

/// Whether `text` holds white space only.
pub open spec fn blank(text: Seq<char>) -> bool {
    forall|i: int| 0 <= i < text.len() ==> is_whitespace(#[trigger] text[i])
}

/// A name that a line can give to a child: it is not empty, holds no `=`
/// and no white space at its ends, does not start with `#`, and is no
/// brace.
pub open spec fn storable_name(name: Seq<char>) -> bool {
    &&& name.len() > 0
    &&& trimmed(name) == name
    &&& !name.contains('=')
    &&& name[0] != '#'
    &&& name != seq!['{']
    &&& name != seq!['}']
}

/// A name that a line can give to a comment: it starts with `#` and holds
/// no white space at its end.
pub open spec fn storable_comment(name: Seq<char>) -> bool {
    &&& name.len() > 0
    &&& trimmed(name) == name
    &&& name[0] == '#'
}

/// Values that a line can give to a child: there is one at least, each is
/// plain, and the last is not empty.
pub open spec fn storable_values(values: Seq<Seq<char>>) -> bool {
    &&& values.len() > 0
    &&& forall|i: int| 0 <= i < values.len() ==> plain(#[trigger] values[i])
    &&& values.last().len() > 0
}

/// A tree that a document can hold, written with `separator` and `unit`:
/// at every level names are unique, every node has the formatting of the
/// document, a comment is empty, a child without children has values that
/// a line can give, and a child with children has no values.
pub open spec fn storable(node: Node, separator: char, unit: Seq<char>) -> bool
    decreases node,
{
    &&& node.unique_names()
    &&& forall|i: int|
        0 <= i < node.children.len() ==> {
            let name = (#[trigger] node.children[i]).0;
            let child = node.children[i].1;
            &&& child.separator == separator
            &&& child.indent == unit
            &&& if child.comment {
                storable_comment(name) && child.values.len() == 0 && child.children.len() == 0
            } else if child.children.len() == 0 {
                storable_name(name) && storable_values(child.values)
            } else {
                storable_name(name) && child.values.len() == 0 && storable(child, separator, unit)
            }
        }
}

/// The line of a child without children, without the line break at its
/// end.
pub open spec fn leaf_line(
    name: Seq<char>,
    node: Node,
    separator: char,
    indentation: Seq<char>,
) -> Seq<char> {
    key_text(name, node, indentation) + value_list(node.values, separator)
}

/// The lines that the writer makes of the first `count` children of
/// `node`, each without the line break at its end.
pub open spec fn body_lines_prefix(
    node: Node,
    count: nat,
    separator: char,
    unit: Seq<char>,
    indentation: Seq<char>,
) -> Seq<Seq<char>>
    decreases node, count,
{
    if count == 0 || count > node.children.len() {
        Seq::empty()
    } else {
        let name = node.children[count - 1].0;
        let child = node.children[count - 1].1;
        body_lines_prefix(node, (count - 1) as nat, separator, unit, indentation)
            + if child.children.len() == 0 {
            seq![leaf_line(name, child, separator, indentation)]
        } else {
            seq![Seq::empty(), indentation + name, indentation + seq!['{']] + body_lines_prefix(
                child,
                child.children.len(),
                separator,
                unit,
                indentation + unit,
            ) + seq![indentation + seq!['}']]
        }
    }
}

/// The lines that the writer makes of the children of `node`.
pub open spec fn body_lines(
    node: Node,
    separator: char,
    unit: Seq<char>,
    indentation: Seq<char>,
) -> Seq<Seq<char>> {
    body_lines_prefix(node, node.children.len(), separator, unit, indentation)
}

/// The lines of the document of a tree: the lines that the writer makes of
/// it, without the first if that is empty.
pub open spec fn document_lines(root: Node) -> Seq<Seq<char>> {
    let lines = body_lines(root, root.separator, root.indent, Seq::empty());
    if lines.len() > 0 && lines[0].len() == 0 {
        lines.skip(1)
    } else {
        lines
    }
}

/// The text of `lines`: each line with a line break behind it.
pub open spec fn joined(lines: Seq<Seq<char>>) -> Seq<char>
    decreases lines.len(),
{
    if lines.len() == 0 {
        Seq::empty()
    } else {
        joined(lines.drop_last()) + lines.last() + seq!['\n']
    }
}

/// A list of values is read back as it was written: the values of the list
/// that the writer makes of plain values are those values. The separator
/// is neither a quote character nor a space, and a single value is not
/// empty.
pub proof fn lemma_values_round_trip(values: Seq<Seq<char>>, separator: char)
    requires
        separator != '"',
        separator != ' ',
        forall|i: int| 0 <= i < values.len() ==> plain(#[trigger] values[i]),
        values.len() == 1 ==> values[0].len() > 0,
    ensures
        tokens(value_list(values, separator), separator) == values,
{
    let empty = Seq::<char>::empty();
    if values.len() == 0 {
        assert(tokens(empty, separator) =~= values);
    } else {
        lemma_scan_value_list(values, empty, separator, empty);
        assert(value_list(values, separator) + empty =~= value_list(values, separator));
        let token = last_token(values, empty);
        if values.len() == 1 {
            assert(token =~= values[0]);
        }
        assert(token.len() > 0);
        assert(values.drop_last() + seq![values.last()] =~= values);
    }
}

/// A comment is written as it was read: its line is its name behind the
/// indentation, without ` = ` and without values.
pub proof fn lemma_comment_written_verbatim(
    name: Seq<char>,
    node: Node,
    separator: char,
    indentation: Seq<char>,
)
    requires
        node.comment,
        node.values.len() == 0,
    ensures
        key_text(name, node, indentation) == indentation + name,
        value_line(name, node, separator, indentation) == indentation + name + seq!['\n'],
{
    assert(indentation + name + Seq::<char>::empty() =~= indentation + name);
    assert(indentation + name + Seq::<char>::empty() + seq!['\n'] =~= indentation + name
        + seq!['\n']);
}

/// A tree is read back as it was written. Reading the lines that the
/// writer makes of a tree that a document can hold, into an empty tree with
/// the same formatting, gives that tree, and reads all lines.
pub proof fn lemma_tree_round_trip(root: Node)
    requires
        storable(root, root.separator, root.indent),
        !root.comment,
        root.values.len() == 0,
        root.separator != '"',
        root.separator != ' ',
        blank(root.indent),
    ensures
        parse_scope(
            Node::leaf(root.separator, root.indent),
            body_lines(root, root.separator, root.indent, Seq::empty()),
            0,
        ) == (
            root,
            body_lines(root, root.separator, root.indent, Seq::empty()).len() as int,
        ),
        body(root, root.separator, root.indent, Seq::empty()) == joined(
            body_lines(root, root.separator, root.indent, Seq::empty()),
        ),
{
    let empty = Seq::<char>::empty();
    let lines = body_lines(root, root.separator, root.indent, empty);
    let count = root.children.len();
    lemma_read_children(root, count, root.separator, root.indent, empty, lines, 0);
    lemma_body_is_joined_lines(root, count, root.separator, root.indent, empty);
    assert(root.values =~= Seq::<Seq<char>>::empty());
    assert(partial(root, 0).children =~= Seq::<(Seq<char>, Node)>::empty());
    assert(partial(root, 0) == Node::leaf(root.separator, root.indent));
    assert(root.children.take(count as int) =~= root.children);
    assert(partial(root, count as int) == root);
}

/// A document is read back as it was written. The document of a tree that
/// a document can hold is the text of its lines, and reading those lines
/// into an empty tree with the same formatting gives the tree.
pub proof fn lemma_document_round_trip(root: Node)
    requires
        storable(root, root.separator, root.indent),
        !root.comment,
        root.values.len() == 0,
        root.separator != '"',
        root.separator != ' ',
        blank(root.indent),
    ensures
        document(root) == joined(document_lines(root)),
        parse_scope(Node::leaf(root.separator, root.indent), document_lines(root), 0).0 == root,
{
    let empty = Seq::<char>::empty();
    let fresh = Node::leaf(root.separator, root.indent);
    let lines = body_lines(root, root.separator, root.indent, empty);
    lemma_tree_round_trip(root);
    if root.children.len() == 0 {
        assert(joined(lines) =~= empty);
    } else {
        lemma_first_line(root, root.children.len(), root.separator, root.indent);
        let first = seq![lines[0]];
        let rest = lines.skip(1);
        assert(lines =~= first + rest);
        lemma_joined_concat(first, rest);
        lemma_joined_single(lines[0]);
        let text = joined(lines);
        assert(text =~= lines[0] + seq!['\n'] + joined(rest));
        if lines[0].len() == 0 {
            assert(text[0] == '\n');
            assert(text.skip(1) =~= joined(rest));
            lemma_classify_skipped(empty);
            assert(lines[0] =~= empty);
            assert(parse_scope(fresh, lines, 0) == parse_scope(fresh, lines, 1));
            lemma_parse_scope_shift(fresh, lines, 0);
        } else {
            assert(text[0] == lines[0][0]);
        }
    }
}

/// A text that trimming leaves as it is has no white space at either end.
pub proof fn lemma_trimmed_ends(text: Seq<char>)
    requires
        trimmed(text) == text,
    ensures
        text.len() > 0 ==> !is_whitespace(text[0]) && !is_whitespace(text.last()),
        trim_start(text) == text,
        trim_end(text) == text,
{
    lemma_trim_shortens(text);
    lemma_trim_shortens_end(trim_start(text));
    if text.len() > 0 {
        if is_whitespace(text[0]) {
            lemma_trim_shortens(text.skip(1));
        }
        assert(trim_start(text) == text);
        if is_whitespace(text.last()) {
            lemma_trim_shortens_end(text.drop_last());
        }
    }
}

/// Trimming at the start makes a text no longer.
pub proof fn lemma_trim_shortens(text: Seq<char>)
    ensures
        trim_start(text).len() <= text.len(),
    decreases text.len(),
{
    if text.len() > 0 && is_whitespace(text[0]) {
        lemma_trim_shortens(text.skip(1));
    }
}

/// Trimming at the end makes a text no longer.
pub proof fn lemma_trim_shortens_end(text: Seq<char>)
    ensures
        trim_end(text).len() <= text.len(),
    decreases text.len(),
{
    if text.len() > 0 && is_whitespace(text.last()) {
        lemma_trim_shortens_end(text.drop_last());
    }
}

/// A space in front of a plain value is trimmed away.
pub proof fn lemma_trimmed_behind_space(value: Seq<char>)
    requires
        trimmed(value) == value,
    ensures
        trimmed(seq![' '] + value) == value,
{
    lemma_trimmed_ends(value);
    let text = seq![' '] + value;
    assert(is_whitespace(' '));
    assert(text[0] == ' ');
    assert(text.skip(1) =~= value);
    assert(trim_start(text) == trim_start(value));
}

/// Text without quote characters that stands inside quotes, or holds no
/// separator, is read into the value at hand.
pub proof fn lemma_scan_text(
    text: Seq<char>,
    rest: Seq<char>,
    separator: char,
    is_quoted: bool,
    token: Seq<char>,
)
    requires
        !text.contains('"'),
        is_quoted || !text.contains(separator),
    ensures
        scan(text + rest, separator, is_quoted, token) == scan(
            rest,
            separator,
            is_quoted,
            token + text,
        ),
    decreases text.len(),
{
    if text.len() == 0 {
        assert(text + rest =~= rest);
        assert(token + text =~= token);
    } else {
        let all = text + rest;
        let tail = text.skip(1);
        assert(all[0] == text[0]);
        assert(all.skip(1) =~= tail + rest);
        assert(text.contains(text[0]));
        assert forall|c: char| tail.contains(c) implies text.contains(c) by {
            let i = choose|i: int| 0 <= i < tail.len() && tail[i] == c;
            assert(text[i + 1] == c);
        }
        lemma_scan_text(tail, rest, separator, is_quoted, token.push(text[0]));
        assert(token.push(text[0]) + tail =~= token + text);
    }
}

/// A value as it stands in a list is read into the value at hand, without
/// its quotes.
pub proof fn lemma_scan_quoted(
    value: Seq<char>,
    rest: Seq<char>,
    separator: char,
    token: Seq<char>,
)
    requires
        !value.contains('"'),
        separator != '"',
    ensures
        scan(quoted(value, separator) + rest, separator, false, token) == scan(
            rest,
            separator,
            false,
            token + value,
        ),
{
    if value.contains(separator) {
        let quote = seq!['"'];
        let all = quote + value + quote + rest;
        assert(all[0] == '"');
        assert(all.skip(1) =~= value + (quote + rest));
        lemma_scan_text(value, quote + rest, separator, true, token);
        let behind = quote + rest;
        assert(behind[0] == '"');
        assert(behind.skip(1) =~= rest);
    } else {
        lemma_scan_text(value, rest, separator, false, token);
    }
}

/// What has been read of the last value of a list once the list is read,
/// where `token` was at hand before the list: the value, behind `token`
/// if it is the only one, else behind the space that follows a separator.
pub open spec fn last_token(values: Seq<Seq<char>>, token: Seq<char>) -> Seq<char> {
    if values.len() == 1 {
        token + values[0]
    } else {
        seq![' '] + values.last()
    }
}

/// Reading a list of plain values gives all values but the last, and goes
/// on behind the list with the last value at hand. White space that was at
/// hand before the list is trimmed off the first value.
pub proof fn lemma_scan_value_list(
    values: Seq<Seq<char>>,
    rest: Seq<char>,
    separator: char,
    token: Seq<char>,
)
    requires
        values.len() > 0,
        separator != '"',
        separator != ' ',
        forall|i: int| 0 <= i < values.len() ==> plain(#[trigger] values[i]),
        token.len() == 0 || token == seq![' '],
    ensures
        scan(value_list(values, separator) + rest, separator, false, token) == values.drop_last()
            + scan(rest, separator, false, last_token(values, token)),
        trimmed(last_token(values, token)) == values.last(),
    decreases values.len(),
{
    let empty = Seq::<char>::empty();
    assert(plain(values.last()));
    if values.len() == 1 {
        lemma_scan_quoted(values[0], rest, separator, token);
        if token.len() == 0 {
            assert(token + values[0] =~= values[0]);
        } else {
            lemma_trimmed_behind_space(values[0]);
        }
        assert(values.drop_last() + scan(rest, separator, false, token + values[0]) =~= scan(
            rest,
            separator,
            false,
            token + values[0],
        ));
    } else {
        let front = values.drop_last();
        let last = values.last();
        let joint = seq![separator, ' '];
        let behind = joint + quoted(last, separator) + rest;
        let at_hand = last_token(front, token);
        let spaced = behind.skip(1);
        let end = scan(rest, separator, false, seq![' '] + last);
        assert forall|i: int| 0 <= i < front.len() implies plain(#[trigger] front[i]) by {
            assert(front[i] == values[i]);
        }
        assert(value_list(values, separator) + rest =~= value_list(front, separator) + behind);
        lemma_scan_value_list(front, behind, separator, token);
        assert(scan(value_list(values, separator) + rest, separator, false, token)
            == front.drop_last() + scan(behind, separator, false, at_hand));
        // The separator ends the value before the last.
        assert(behind[0] == separator);
        assert(scan(behind, separator, false, at_hand) == seq![trimmed(at_hand)] + scan(
            spaced,
            separator,
            false,
            empty,
        ));
        // The space behind it starts the last value.
        assert(spaced =~= seq![' '] + (quoted(last, separator) + rest));
        assert(spaced[0] == ' ');
        assert(spaced.skip(1) =~= quoted(last, separator) + rest);
        assert(empty.push(' ') =~= seq![' ']);
        assert(scan(spaced, separator, false, empty) == scan(
            quoted(last, separator) + rest,
            separator,
            false,
            seq![' '],
        ));
        lemma_scan_quoted(last, rest, separator, seq![' ']);
        assert(scan(spaced, separator, false, empty) == end);
        assert(trimmed(at_hand) == front.last());
        assert(front.drop_last() + (seq![front.last()] + end) =~= front + end);
        lemma_trimmed_behind_space(last);
    }
}

/// The text of one line is the line with a line break behind it.
pub proof fn lemma_joined_single(line: Seq<char>)
    ensures
        joined(seq![line]) == line + seq!['\n'],
{
    let single = seq![line];
    assert(single.drop_last() =~= Seq::<Seq<char>>::empty());
    assert(joined(single.drop_last()) =~= Seq::<char>::empty());
    assert(joined(single) =~= line + seq!['\n']);
}

/// The text of two runs of lines is the text of the first and then that of
/// the second.
pub proof fn lemma_joined_concat(first: Seq<Seq<char>>, second: Seq<Seq<char>>)
    ensures
        joined(first + second) == joined(first) + joined(second),
    decreases second.len(),
{
    if second.len() == 0 {
        assert(first + second =~= first);
        assert(joined(first) + joined(second) =~= joined(first));
    } else {
        let all = first + second;
        assert(all.drop_last() =~= first + second.drop_last());
        assert(all.last() == second.last());
        lemma_joined_concat(first, second.drop_last());
        assert(joined(first) + joined(second.drop_last()) + second.last() + seq!['\n']
            =~= joined(first) + (joined(second.drop_last()) + second.last() + seq!['\n']));
    }
}

/// The text that the writer makes of a tree is the text of the lines that
/// it makes of it.
pub proof fn lemma_body_is_joined_lines(
    node: Node,
    count: nat,
    separator: char,
    unit: Seq<char>,
    indentation: Seq<char>,
)
    ensures
        body_prefix(node, count, separator, unit, indentation) == joined(
            body_lines_prefix(node, count, separator, unit, indentation),
        ),
    decreases node, count,
{
    if count == 0 || count > node.children.len() {
    } else {
        let name = node.children[count - 1].0;
        let child = node.children[count - 1].1;
        let before = body_lines_prefix(node, (count - 1) as nat, separator, unit, indentation);
        lemma_body_is_joined_lines(node, (count - 1) as nat, separator, unit, indentation);
        let empty = Seq::<char>::empty();
        if child.children.len() == 0 {
            let line = leaf_line(name, child, separator, indentation);
            lemma_joined_concat(before, seq![line]);
            lemma_joined_single(line);
            assert(value_line(name, child, separator, indentation) =~= line + seq!['\n']);
        } else {
            let deeper = indentation + unit;
            let inner = body_lines_prefix(child, child.children.len(), separator, unit, deeper);
            lemma_body_is_joined_lines(child, child.children.len(), separator, unit, deeper);
            let head = seq![empty, indentation + name, indentation + seq!['{']];
            let foot = seq![indentation + seq!['}']];
            assert(head.drop_last() =~= seq![empty, indentation + name]);
            assert(head.drop_last().drop_last() =~= seq![empty]);
            lemma_joined_single(empty);
            assert(joined(seq![empty]) =~= seq!['\n']);
            assert(joined(head.drop_last()) =~= seq!['\n'] + indentation + name + seq!['\n']);
            assert(joined(head) =~= header_text(name, indentation));
            lemma_joined_single(indentation + seq!['}']);
            assert(joined(foot) =~= footer_text(indentation));
            lemma_joined_concat(head, inner);
            lemma_joined_concat(head + inner, foot);
            lemma_joined_concat(before, head + inner + foot);
        }
    }
}

/// A text that starts and ends with something other than white space is
/// left as it is by trimming.
pub proof fn lemma_trimmed_if_ends(text: Seq<char>)
    requires
        text.len() > 0,
        !is_whitespace(text[0]),
        !is_whitespace(text.last()),
    ensures
        trimmed(text) == text,
{
    lemma_trim_start(text, 0);
    assert(text.skip(0) =~= text);
    lemma_trim_end(text, text.len() as int);
    assert(text.take(text.len() as int) =~= text);
}

/// Trimming takes the indentation off a line.
pub proof fn lemma_trimmed_indented(indentation: Seq<char>, text: Seq<char>)
    requires
        blank(indentation),
        trimmed(text) == text,
    ensures
        trimmed(indentation + text) == text,
{
    let all = indentation + text;
    let depth = indentation.len() as int;
    lemma_trimmed_ends(text);
    assert forall|i: int| 0 <= i < depth implies is_whitespace(#[trigger] all[i]) by {
        assert(all[i] == indentation[i]);
    }
    if text.len() > 0 {
        assert(all[depth] == text[0]);
    }
    lemma_trim_start(all, depth);
    assert(all.skip(depth) =~= text);
}

/// Trimming takes the space off the end of a name.
pub proof fn lemma_trimmed_before_space(name: Seq<char>)
    requires
        name.len() > 0,
        trimmed(name) == name,
    ensures
        trimmed(name + seq![' ']) == name,
{
    lemma_trimmed_ends(name);
    let all = name + seq![' '];
    let length = name.len() as int;
    assert(all[0] == name[0]);
    lemma_trim_start(all, 0);
    assert(all.skip(0) =~= all);
    assert(is_whitespace(' '));
    assert(all[length - 1] == name.last());
    lemma_trim_end(all, length);
    assert(all.take(length) =~= name);
}

/// A list of values that a line can give ends with something other than
/// white space.
pub proof fn lemma_value_list_end(values: Seq<Seq<char>>, separator: char)
    requires
        storable_values(values),
    ensures
        value_list(values, separator).len() > 0,
        !is_whitespace(value_list(values, separator).last()),
{
    let last = values.last();
    assert(plain(last));
    lemma_trimmed_ends(last);
    assert(!is_whitespace('"'));
    let end = quoted(last, separator);
    assert(end.len() > 0 && !is_whitespace(end.last()));
    if values.len() > 1 {
        let list = value_list(values, separator);
        assert(list.last() == end.last());
    }
}

/// A blank line and a line with an opening brace say nothing.
pub proof fn lemma_classify_skipped(indentation: Seq<char>)
    requires
        blank(indentation),
    ensures
        classify(Seq::empty()) == Line::Skip,
        classify(indentation + seq!['{']) == Line::Skip,
{
    let brace = seq!['{'];
    assert(!is_whitespace('{'));
    lemma_trimmed_if_ends(brace);
    lemma_trimmed_indented(indentation, brace);
    lemma_trim_start(Seq::<char>::empty(), 0);
    assert(Seq::<char>::empty().skip(0) =~= Seq::<char>::empty());
}

/// A line with a closing brace closes the scope.
pub proof fn lemma_classify_close(indentation: Seq<char>)
    requires
        blank(indentation),
    ensures
        classify(indentation + seq!['}']) == Line::Close,
{
    let brace = seq!['}'];
    assert(!is_whitespace('}'));
    lemma_trimmed_if_ends(brace);
    lemma_trimmed_indented(indentation, brace);
    assert(brace[0] == '}');
    assert(brace != seq!['{']) by {
        if brace == seq!['{'] {
            assert(seq!['{'][0] == '{');
        }
    }
}

/// The line of a comment is read as that comment.
pub proof fn lemma_classify_comment(indentation: Seq<char>, name: Seq<char>)
    requires
        blank(indentation),
        storable_comment(name),
    ensures
        classify(indentation + name) == Line::Comment(name),
{
    lemma_trimmed_indented(indentation, name);
    assert(name != seq!['{']) by {
        if name == seq!['{'] {
            assert(seq!['{'][0] == '{');
        }
    }
}

/// The line that opens the scope of a child is read as its header.
pub proof fn lemma_classify_header(indentation: Seq<char>, name: Seq<char>)
    requires
        blank(indentation),
        storable_name(name),
    ensures
        classify(indentation + name) == Line::Header(name),
{
    lemma_trimmed_indented(indentation, name);
    assert forall|i: int| 0 <= i < name.len() implies #[trigger] name[i] != '=' by {
        if name[i] == '=' {
            assert(name.contains('='));
        }
    }
    lemma_first_index(name, '=', name.len() as int);
}

/// The line of a child without children is read as the assignment of its
/// list of values, behind a space, to its name.
pub proof fn lemma_classify_leaf(
    name: Seq<char>,
    node: Node,
    separator: char,
    indentation: Seq<char>,
)
    requires
        blank(indentation),
        storable_name(name),
        !node.comment,
        storable_values(node.values),
    ensures
        classify(leaf_line(name, node, separator, indentation)) == Line::Assignment(
            name,
            seq![' '] + value_list(node.values, separator),
        ),
{
    let list = value_list(node.values, separator);
    let text = name + seq![' ', '=', ' '] + list;
    let at: int = name.len() as int + 1;
    lemma_value_list_end(node.values, separator);
    lemma_trimmed_ends(name);
    assert(text[0] == name[0]);
    assert(text.last() == list.last());
    lemma_trimmed_if_ends(text);
    lemma_trimmed_indented(indentation, text);
    assert(leaf_line(name, node, separator, indentation) =~= indentation + text);
    assert forall|i: int| 0 <= i < at implies #[trigger] text[i] != '=' by {
        if i < name.len() {
            assert(text[i] == name[i]);
            if name[i] == '=' {
                assert(name.contains('='));
            }
        } else {
            assert(text[i] == ' ');
        }
    }
    assert(text[at] == '=');
    lemma_first_index(text, '=', at);
    assert(text.take(at) =~= name + seq![' ']);
    lemma_trimmed_before_space(name);
    assert(text.skip(at + 1) =~= seq![' '] + list);
    assert(text.len() >= 4);
    assert(text != seq!['{'] && text != seq!['}']) by {
        assert(seq!['{'].len() == 1);
        assert(seq!['}'].len() == 1);
    }
}

/// The values of a list that stands behind a space are the values of the
/// list.
pub proof fn lemma_tokens_behind_space(values: Seq<Seq<char>>, separator: char)
    requires
        storable_values(values),
        separator != '"',
        separator != ' ',
    ensures
        tokens(seq![' '] + value_list(values, separator), separator) == values,
{
    let empty = Seq::<char>::empty();
    let list = value_list(values, separator);
    let raw = seq![' '] + list;
    assert(raw[0] == ' ');
    assert(raw.skip(1) =~= list + empty);
    assert(empty.push(' ') =~= seq![' ']);
    assert(tokens(raw, separator) == scan(list + empty, separator, false, seq![' ']));
    lemma_scan_value_list(values, empty, separator, seq![' ']);
    let token = last_token(values, seq![' ']);
    assert(token.len() > 0);
    assert(values.drop_last() + seq![values.last()] =~= values);
}

/// `node` with its first `count` children only.
pub open spec fn partial(node: Node, count: int) -> Node {
    Node { children: node.children.take(count), ..node }
}

/// `lines` stand in `all` from position `pos` on.
pub open spec fn holds_at(all: Seq<Seq<char>>, pos: int, lines: Seq<Seq<char>>) -> bool {
    &&& 0 <= pos
    &&& pos + lines.len() <= all.len()
    &&& forall|j: int| 0 <= j < lines.len() ==> all[pos + j] == #[trigger] lines[j]
}

/// Where two runs of lines stand one behind the other, each of them stands.
pub proof fn lemma_holds_at_split(
    all: Seq<Seq<char>>,
    pos: int,
    first: Seq<Seq<char>>,
    second: Seq<Seq<char>>,
)
    requires
        holds_at(all, pos, first + second),
    ensures
        holds_at(all, pos, first),
        holds_at(all, pos + first.len(), second),
{
    let both = first + second;
    assert forall|j: int| 0 <= j < first.len() implies all[pos + j] == #[trigger] first[j] by {
        assert(both[j] == first[j]);
    }
    assert forall|j: int| 0 <= j < second.len() implies all[pos + first.len() + j]
        == #[trigger] second[j] by {
        assert(both[first.len() + j] == second[j]);
    }
}

/// A lookup of the name of the next child, in a node that has the children
/// before it only, makes that child at the end.
pub proof fn lemma_partial_step(node: Node, k: int, child: Node)
    requires
        node.unique_names(),
        0 <= k < node.children.len(),
        !node.children[k].1.comment,
    ensures
        ({
            let name = node.children[k].0;
            let seen = partial(node, k);
            let opened = seen.opened(name);
            &&& !seen.has_child(name)
            &&& opened.child_index(name) == k
            &&& opened.child(name) == Node::leaf(node.separator, node.indent)
            &&& opened.with_child(k, child) == (Node {
                children: node.children.take(k).push((name, child)),
                ..node
            })
        }),
        partial(node, k).unique_names(),
{
    let name = node.children[k].0;
    let seen = partial(node, k);
    assert forall|i: int, j: int, other: Seq<char>|
        seen.names(i, other) && seen.names(j, other) implies i == j by {
        assert(node.names(i, other) && node.names(j, other));
    }
    if seen.has_child(name) {
        let i = seen.child_index(name);
        assert(node.names(i, name) && node.names(k, name));
    }
    seen.lemma_opened(name);
    let opened = seen.opened(name);
    assert(opened.with_child(k, child).children =~= node.children.take(k).push((name, child)));
}

/// Reading the lines that the writer makes of the first children of a
/// tree, into a node that has none of them yet, makes those children.
pub proof fn lemma_read_children(
    node: Node,
    count: nat,
    separator: char,
    unit: Seq<char>,
    indentation: Seq<char>,
    all: Seq<Seq<char>>,
    pos: int,
)
    requires
        storable(node, separator, unit),
        node.separator == separator,
        node.indent == unit,
        separator != '"',
        separator != ' ',
        blank(unit),
        blank(indentation),
        count <= node.children.len(),
        holds_at(all, pos, body_lines_prefix(node, count, separator, unit, indentation)),
    ensures
        parse_scope(partial(node, 0), all, pos) == parse_scope(
            partial(node, count as int),
            all,
            pos + body_lines_prefix(node, count, separator, unit, indentation).len(),
        ),
    decreases node, count,
{
    if count == 0 {
    } else {
        let k = (count - 1) as int;
        let name = node.children[k].0;
        let child = node.children[k].1;
        let before = body_lines_prefix(node, k as nat, separator, unit, indentation);
        let seen = partial(node, k);
        let next = partial(node, k + 1);
        let at = pos + before.len();
        assert(node.children.take(k).push((name, child)) =~= node.children.take(k + 1));
        if child.children.len() == 0 {
            let line = leaf_line(name, child, separator, indentation);
            lemma_holds_at_split(all, pos, before, seq![line]);
            lemma_read_children(node, k as nat, separator, unit, indentation, all, pos);
            assert(all[at] == seq![line][0]);
            if child.comment {
                assert(child.values =~= Seq::<Seq<char>>::empty());
                assert(child.children =~= Seq::<(Seq<char>, Node)>::empty());
                assert(value_list(child.values, separator) =~= Seq::<char>::empty());
                assert(line =~= indentation + name);
                lemma_classify_comment(indentation, name);
                assert(seen.with_comment(name) == next);
            } else {
                lemma_classify_leaf(name, child, separator, indentation);
                lemma_tokens_behind_space(child.values, separator);
                lemma_partial_step(node, k, child);
                let fresh = Node::leaf(separator, unit);
                assert(child.children =~= Seq::<(Seq<char>, Node)>::empty());
                assert(fresh.with_values(child.values) == child);
                assert(seen.assigned(name, child.values) == next);
            }
            assert(parse_scope(seen, all, at) == parse_scope(next, all, at + 1));
        } else {
            let deeper = indentation + unit;
            let inner = body_lines_prefix(child, child.children.len(), separator, unit, deeper);
            let head = seq![Seq::<char>::empty(), indentation + name, indentation + seq!['{']];
            let foot = seq![indentation + seq!['}']];
            lemma_holds_at_split(all, pos, before, head + inner + foot);
            lemma_holds_at_split(all, at, head + inner, foot);
            lemma_holds_at_split(all, at, head, inner);
            lemma_read_children(node, k as nat, separator, unit, indentation, all, pos);
            assert(all[at] == head[0]);
            assert(all[at + 1] == head[1]);
            assert(all[at + 2] == head[2]);
            assert(all[at + 3 + inner.len()] == foot[0]);
            lemma_classify_skipped(indentation);
            lemma_classify_header(indentation, name);
            lemma_classify_close(indentation);
            lemma_partial_step(node, k, child);
            // The blank line.
            assert(parse_scope(seen, all, at) == parse_scope(seen, all, at + 1));
            // The scope of the child: its brace, its children, its end.
            let fresh = Node::leaf(separator, unit);
            assert(child.values =~= Seq::<Seq<char>>::empty());
            assert(partial(child, 0).children =~= Seq::<(Seq<char>, Node)>::empty());
            assert(partial(child, 0) == fresh);
            assert(child.children.take(child.children.len() as int) =~= child.children);
            assert(partial(child, child.children.len() as int) == child);
            assert forall|i: int| 0 <= i < deeper.len() implies is_whitespace(
                #[trigger] deeper[i],
            ) by {
                if i < indentation.len() {
                    assert(deeper[i] == indentation[i]);
                } else {
                    assert(deeper[i] == unit[i - indentation.len()]);
                }
            }
            lemma_read_children(
                child,
                child.children.len(),
                separator,
                unit,
                deeper,
                all,
                at + 3,
            );
            let end = at + 3 + inner.len();
            assert(parse_scope(fresh, all, at + 2) == parse_scope(fresh, all, at + 3));
            assert(parse_scope(child, all, end) == (child, end + 1));
            assert(parse_scope(fresh, all, at + 2) == (child, end + 1));
            // The header, with the scope behind it.
            let opened = seen.opened(name);
            assert(opened.child(name) == fresh);
            assert(opened.with_child(opened.child_index(name), child) == next);
            assert(parse_scope(seen, all, at + 1) == parse_scope(next, all, end + 1));
        }
    }
}

/// Reading does not depend on where in a document the lines stand: without
/// the first line of the document, the lines behind it are read alike.
pub proof fn lemma_parse_scope_shift(node: Node, lines: Seq<Seq<char>>, pos: int)
    requires
        0 <= pos,
        lines.len() > 0,
    ensures
        parse_scope(node, lines.skip(1), pos).0 == parse_scope(node, lines, pos + 1).0,
        parse_scope(node, lines.skip(1), pos).1 + 1 == parse_scope(node, lines, pos + 1).1,
    decreases lines.len() - pos,
{
    let rest = lines.skip(1);
    if pos < rest.len() {
        assert(rest[pos] == lines[pos + 1]);
        match classify(rest[pos]) {
            Line::Skip => {
                lemma_parse_scope_shift(node, lines, pos + 1);
            },
            Line::Comment(name) => {
                lemma_parse_scope_shift(node.with_comment(name), lines, pos + 1);
            },
            Line::Close => {},
            Line::Header(name) => {
                let opened = node.opened(name);
                lemma_parse_scope_shift(opened.child(name), lines, pos + 1);
                let inner = parse_scope(opened.child(name), rest, pos + 1);
                lemma_parse_scope_advances(opened.child(name), rest, pos + 1);
                lemma_parse_scope_shift(
                    opened.with_child(opened.child_index(name), inner.0),
                    lines,
                    inner.1,
                );
            },
            Line::Assignment(key, raw) => {
                lemma_parse_scope_shift(
                    node.assigned(key, tokens(raw, node.separator)),
                    lines,
                    pos + 1,
                );
            },
        }
    }
}

/// The first line that the writer makes of a tree does not start with a
/// line break.
pub proof fn lemma_first_line(
    node: Node,
    count: nat,
    separator: char,
    unit: Seq<char>,
)
    requires
        storable(node, separator, unit),
        0 < count <= node.children.len(),
    ensures
        ({
            let lines = body_lines_prefix(node, count, separator, unit, Seq::empty());
            lines.len() > 0 && (lines[0].len() > 0 ==> lines[0][0] != '\n')
        }),
    decreases count,
{
    let empty = Seq::<char>::empty();
    let name = node.children[count - 1].0;
    let child = node.children[count - 1].1;
    let before = body_lines_prefix(node, (count - 1) as nat, separator, unit, empty);
    if count > 1 {
        lemma_first_line(node, (count - 1) as nat, separator, unit);
    } else {
        assert(before =~= Seq::<Seq<char>>::empty());
        if child.children.len() == 0 {
            let line = leaf_line(name, child, separator, empty);
            assert(is_whitespace('\n'));
            lemma_trimmed_ends(name);
            assert(line[0] == name[0]);
        }
    }
}

} // verus!

//! The reader: from the lines of a document to a tree.

use crate::datafile::Datafile;
use crate::node::Node;
use crate::text::find_char;
use crate::text::first_index;
use crate::text::is_single;
use crate::text::trim;
use crate::text::trimmed;
use vstd::prelude::*;

verus! {

/// What a line of a document says.
pub enum Line {
    /// Nothing: the line is blank, is an opening brace, or assigns no value.
    Skip,
    /// A comment. The text is the whole line, its `#` included.
    Comment(Seq<char>),
    /// The end of the scope that is open.
    Close,
    /// The start of the scope of the child with this name.
    Header(Seq<char>),
    /// The values of the child with this name, as they were written.
    Assignment(Seq<char>, Seq<char>),
}

/// What `line` says, by its first character and its first `=`.
pub open spec fn classify(line: Seq<char>) -> Line {
    let text = trimmed(line);
    let at = first_index(text, '=');
    if text.len() == 0 || text == seq!['{'] {
        Line::Skip
    } else if text[0] == '#' {
        Line::Comment(text)
    } else if text == seq!['}'] {
        Line::Close
    } else if at == text.len() {
        Line::Header(text)
    } else if at + 1 == text.len() {
        Line::Skip
    } else {
        Line::Assignment(trimmed(text.take(at)), text.skip(at + 1))
    }
}

/// The values in the rest of a list, where `token` holds what was read of
/// the value at hand and `quoted` says whether a quote is open. A quote
/// character opens or closes a quote and is dropped; outside quotes the
/// separator ends a value. Every value is trimmed. A last value that ends
/// with the text counts only if something was read of it.
pub open spec fn scan(rest: Seq<char>, separator: char, quoted: bool, token: Seq<char>) -> Seq<
    Seq<char>,
>
    decreases rest.len(),
{
    if rest.len() == 0 {
        if token.len() > 0 {
            seq![trimmed(token)]
        } else {
            Seq::empty()
        }
    } else if rest[0] == '"' {
        scan(rest.skip(1), separator, !quoted, token)
    } else if quoted {
        scan(rest.skip(1), separator, quoted, token.push(rest[0]))
    } else if rest[0] == separator {
        seq![trimmed(token)] + scan(rest.skip(1), separator, quoted, Seq::empty())
    } else {
        scan(rest.skip(1), separator, quoted, token.push(rest[0]))
    }
}

/// The values that a list holds.
pub open spec fn tokens(raw: Seq<char>, separator: char) -> Seq<Seq<char>> {
    scan(raw, separator, false, Seq::empty())
}

/// The tree that reading the lines from `pos` on makes of `node`, and the
/// position behind the last line that was read: behind the brace that
/// closes the scope of `node`, or behind the last line.
pub open spec fn parse_scope(node: Node, lines: Seq<Seq<char>>, pos: int) -> (Node, int)
    decreases lines.len() - pos,
{
    if pos < 0 || pos >= lines.len() {
        (node, pos)
    } else {
        match classify(lines[pos]) {
            Line::Skip => parse_scope(node, lines, pos + 1),
            Line::Comment(name) => parse_scope(node.with_comment(name), lines, pos + 1),
            Line::Close => (node, pos + 1),
            Line::Header(name) => {
                let opened = node.opened(name);
                let inner = parse_scope(opened.child(name), lines, pos + 1);
                if pos < inner.1 <= lines.len() {
                    parse_scope(
                        opened.with_child(opened.child_index(name), inner.0),
                        lines,
                        inner.1,
                    )
                } else {
                    (opened, pos + 1)
                }
            },
            Line::Assignment(key, raw) => parse_scope(
                node.assigned(key, tokens(raw, node.separator)),
                lines,
                pos + 1,
            ),
        }
    }
}

/// The lines of a document as sequences of characters.
pub open spec fn lines_of(lines: Seq<String>) -> Seq<Seq<char>> {
    Seq::new(lines.len(), |i: int| lines[i]@)
}

/// Reading a scope never goes back: it ends behind the line it began with.
pub proof fn lemma_parse_scope_advances(node: Node, lines: Seq<Seq<char>>, pos: int)
    requires
        0 <= pos <= lines.len(),
    ensures
        pos <= parse_scope(node, lines, pos).1 <= lines.len(),
        pos < lines.len() ==> pos < parse_scope(node, lines, pos).1,
        parse_scope(node, lines, pos).0.comment == node.comment,
        parse_scope(node, lines, pos).0.separator == node.separator,
        parse_scope(node, lines, pos).0.indent == node.indent,
    decreases lines.len() - pos,
{
    if pos < lines.len() {
        match classify(lines[pos]) {
            Line::Skip => {
                lemma_parse_scope_advances(node, lines, pos + 1);
            },
            Line::Comment(name) => {
                lemma_parse_scope_advances(node.with_comment(name), lines, pos + 1);
            },
            Line::Close => {},
            Line::Header(name) => {
                let opened = node.opened(name);
                lemma_parse_scope_advances(opened.child(name), lines, pos + 1);
                let inner = parse_scope(opened.child(name), lines, pos + 1);
                lemma_parse_scope_advances(
                    opened.with_child(opened.child_index(name), inner.0),
                    lines,
                    inner.1,
                );
            },
            Line::Assignment(key, raw) => {
                lemma_parse_scope_advances(
                    node.assigned(key, tokens(raw, node.separator)),
                    lines,
                    pos + 1,
                );
            },
        }
    }
}

/// A line that gives a key and no value is passed over: it makes no child
/// and changes none. Such a line ends, white space aside, with its first
/// `=`, and is no comment.
pub proof fn lemma_assignment_without_value(node: Node, lines: Seq<Seq<char>>, pos: int)
    requires
        0 <= pos < lines.len(),
        trimmed(lines[pos]).len() > 0,
        trimmed(lines[pos])[0] != '#',
        first_index(trimmed(lines[pos]), '=') == trimmed(lines[pos]).len() - 1,
    ensures
        classify(lines[pos]) == Line::Skip,
        parse_scope(node, lines, pos) == parse_scope(node, lines, pos + 1),
        parse_scope(node, seq![lines[pos]], 0).0 == node,
{
    let text = trimmed(lines[pos]);
    assert(text != seq!['}']) by {
        if text == seq!['}'] {
            assert(text[0] == '}');
            assert(text.skip(1).len() == 0);
            assert(first_index(text.skip(1), '=') == 0);
        }
    }
    let single = seq![lines[pos]];
    assert(classify(single[0]) == Line::Skip);
    assert(parse_scope(node, single, 0) == parse_scope(node, single, 1));
}

/// A line that starts with `#` becomes a comment child at the end of the
/// node, named by the whole line. No lookup finds it: the names that a
/// lookup finds, and the children that it finds for them, are as before.
pub proof fn lemma_comment_line(node: Node, lines: Seq<Seq<char>>, pos: int)
    requires
        0 <= pos < lines.len(),
        trimmed(lines[pos]).len() > 0,
        trimmed(lines[pos])[0] == '#',
        node.unique_names(),
    ensures
        classify(lines[pos]) == Line::Comment(trimmed(lines[pos])),
        parse_scope(node, lines, pos) == parse_scope(
            node.with_comment(trimmed(lines[pos])),
            lines,
            pos + 1,
        ),
        parse_scope(node, seq![lines[pos]], 0).0 == node.with_comment(trimmed(lines[pos])),
        node.with_comment(trimmed(lines[pos])).children.last() == (
            trimmed(lines[pos]),
            Node::comment_leaf(node.separator, node.indent),
        ),
        forall|name: Seq<char>|
            node.with_comment(trimmed(lines[pos])).has_child(name) == node.has_child(name),
        forall|name: Seq<char>|
            node.has_child(name) ==> #[trigger] node.with_comment(trimmed(lines[pos])).child(name)
                == node.child(name),
        node.with_comment(trimmed(lines[pos])).unique_names(),
{
    let text = trimmed(lines[pos]);
    let after = node.with_comment(text);
    assert(text != seq!['{']) by {
        if text == seq!['{'] {
            assert(text[0] == '{');
        }
    }
    let single = seq![lines[pos]];
    assert(classify(single[0]) == Line::Comment(text));
    assert(parse_scope(node, single, 0) == parse_scope(after, single, 1));
    assert forall|name: Seq<char>| after.has_child(name) == node.has_child(name) by {
        if node.has_child(name) {
            assert(after.names(node.child_index(name), name));
        }
        if after.has_child(name) {
            assert(node.names(after.child_index(name), name));
        }
    }
    assert forall|name: Seq<char>| node.has_child(name) implies #[trigger] after.child(name)
        == node.child(name) by {
        assert(after.names(node.child_index(name), name));
        assert(node.names(after.child_index(name), name));
    }
    assert forall|i: int, j: int, name: Seq<char>|
        after.names(i, name) && after.names(j, name) implies i == j by {
        assert(node.names(i, name) && node.names(j, name));
    }
}

/// Fills a tree from the lines of a document.
pub struct Reader<'a> {
    /// The tree that the reader fills.
    pub top_node: &'a mut Datafile,
}

impl<'a> Reader<'a> {
    /// Creates a reader that fills `datafile`.
    pub fn new(datafile: &'a mut Datafile) -> (reader: Self)
        ensures
            *reader.top_node == *old(datafile),
            *final(reader.top_node) == *final(datafile),
    {
        Self { top_node: datafile }
    }

    /// Reads the lines of a document into the tree. What the tree held
    /// before stays, unless a line writes over it. Reading ends with the
    /// last line, or with a closing brace that closes no scope.
    pub fn read(self, lines: &Vec<String>)
        requires
            old(self.top_node).wf(),
        ensures
            final(self.top_node).wf(),
            final(self.top_node)@ == parse_scope(old(self.top_node)@, lines_of(lines@), 0).0,
    {
        Self::read_inner(self.top_node, lines, 0);
    }

    /// Reads the scope of `parent_node`, which starts at line `skip`, and
    /// returns the position of the line that follows the scope.
    pub fn read_inner(parent_node: &mut Datafile, lines: &Vec<String>, skip: usize) -> (next: usize)
        requires
            old(parent_node).wf(),
        ensures
            final(parent_node).wf(),
            skip <= next,
            (final(parent_node)@, next as int) == parse_scope(
                old(parent_node)@,
                lines_of(lines@),
                skip as int,
            ),
        decreases lines.len() - skip,
    {
        let ghost text = lines_of(lines@);
        let ghost start = parent_node@;
        let mut position = skip;
        while position < lines.len()
            invariant
                parent_node.wf(),
                skip <= position,
                start == old(parent_node)@,
                text == lines_of(lines@),
                parse_scope(parent_node@, text, position as int) == parse_scope(
                    start,
                    text,
                    skip as int,
                ),
            decreases lines.len() - position,
        {
            let ghost before = parent_node@;
            let ghost said = classify(text[position as int]);
            assert(text[position as int] == lines@[position as int]@);
            let line = Self::trim_line(lines[position].as_str());
            let (equals, length) = find_char(line, '=');
            proof {
                parent_node.lemma_view();
                parent_node.lemma_wf_view();
            }
            if line.is_empty() || is_single(line, '{') {
                assert(said == Line::Skip);
                position = position + 1;
                continue;
            }
            if line.get_char(0) == '#' {
                assert(said == Line::Comment(line@));
                let comment_node = Self::construct_comment_node(parent_node);
                parent_node.push_object(line, comment_node);
                position = position + 1;
                continue;
            }
            if is_single(line, '}') {
                assert(said == Line::Close);
                return position + 1;
            }
            match equals {
                None => {
                    assert(said == Line::Header(line@));
                    let child = parent_node.get(line);
                    proof {
                        before.lemma_opened(line@);
                        lemma_parse_scope_advances(child@, text, position + 1);
                    }
                    position = Self::read_inner(child, lines, position + 1);
                },
                Some(at) => {
                    if at + 1 < length {
                        let key = line.substring_char(0, at);
                        let raw_value = line.substring_char(at + 1, length);
                        assert(key@ =~= line@.take(at as int));
                        assert(raw_value@ =~= line@.skip(at + 1));
                        assert(said == Line::Assignment(trimmed(key@), raw_value@));
                        Self::parse_value_from_line(parent_node, key, raw_value);
                    } else {
                        assert(said == Line::Skip);
                    }
                    position = position + 1;
                },
            }
        }
        position
    }

    /// Writes the values of the list `raw_value` to the child `key` of
    /// `parent_node`, the first at index 0.
    pub fn parse_value_from_line(parent_node: &mut Datafile, key: &str, raw_value: &str)
        requires
            old(parent_node).wf(),
        ensures
            final(parent_node).wf(),
            final(parent_node)@ == old(parent_node)@.assigned(
                trimmed(key@),
                tokens(raw_value@, old(parent_node)@.separator),
            ),
    {
        let ghost start = parent_node@;
        let ghost name = trimmed(key@);
        let ghost mut done: Seq<Seq<char>> = Seq::empty();
        let length = raw_value.unicode_len();
        let separator = parent_node.list_separator;
        proof {
            parent_node.lemma_view();
            parent_node.lemma_wf_view();
            assert(raw_value@.skip(0) =~= raw_value@);
            assert(done + tokens(raw_value@, separator) =~= tokens(raw_value@, separator));
        }
        let mut is_in_quotes = false;
        let mut token_count: usize = 0;
        let mut token = String::new();
        for c in it: raw_value.chars()
            invariant
                it.seq() == raw_value@,
                length == raw_value@.len(),
                parent_node.wf(),
                start.unique_names(),
                start.separator == separator,
                name == trimmed(key@),
                token_count == done.len(),
                token_count + token@.len() <= it.index(),
                parent_node@ == start.assigned(name, done),
                done + scan(raw_value@.skip(it.index()), separator, is_in_quotes, token@) == tokens(
                    raw_value@,
                    separator,
                ),
        {
            let ghost rest = raw_value@.skip(it.index());
            proof {
                assert(rest[0] == c);
                assert(rest.skip(1) =~= raw_value@.skip(it.index() + 1));
            }
            if c == '"' {
                is_in_quotes = !is_in_quotes;
            } else if is_in_quotes {
                token.push(c);
            } else if c == separator {
                Self::push_token_to_node(key, token.as_str(), token_count, parent_node);
                proof {
                    let tail = scan(rest.skip(1), separator, false, Seq::empty());
                    assert(done + (seq![trimmed(token@)] + tail) =~= done.push(trimmed(token@))
                        + tail);
                    start.lemma_assigned_next(name, done, trimmed(token@));
                    done = done.push(trimmed(token@));
                }
                token_count = token_count + 1;
                token = String::new();
            } else {
                token.push(c);
            }
        }
        proof {
            assert(raw_value@.skip(raw_value@.len() as int) =~= Seq::<char>::empty());
        }
        if !token.as_str().is_empty() {
            Self::push_token_to_node(key, token.as_str(), token_count, parent_node);
            proof {
                start.lemma_assigned_next(name, done, trimmed(token@));
                assert(done + seq![trimmed(token@)] =~= done.push(trimmed(token@)));
            }
        } else {
            proof {
                assert(done + Seq::<Seq<char>>::empty() =~= done);
            }
        }
    }

    /// Writes `token`, trimmed, as the value at `index` of the child `key`
    /// of `node`.
    pub fn push_token_to_node(key: &str, token: &str, index: usize, node: &mut Datafile)
        requires
            old(node).wf(),
            index < usize::MAX,
        ensures
            final(node).wf(),
            final(node)@ == old(node)@.opened(trimmed(key@)).with_child(
                old(node)@.opened(trimmed(key@)).child_index(trimmed(key@)),
                old(node)@.opened(trimmed(key@)).child(trimmed(key@)).with_value(
                    index as int,
                    trimmed(token@),
                ),
            ),
    {
        let key = trim(key);
        let token = trim(token);
        proof {
            node.lemma_wf_view();
            node@.lemma_opened(key@);
        }
        node.get(key).set_string(token, index);
    }

    /// Makes the node of a comment line under `parent_node`: an empty node
    /// with the formatting of its parent.
    pub(crate) fn construct_comment_node(parent_node: &Datafile) -> (comment_node: Datafile)
        ensures
            comment_node.wf(),
            comment_node@ == Node::comment_leaf(parent_node@.separator, parent_node@.indent),
    {
        let mut comment_node = Datafile::new(
            Some(parent_node.list_separator),
            Some(parent_node.whitespace_sequence.as_str()),
        );
        let ghost plain = comment_node;
        comment_node.is_comment = true;
        proof {
            parent_node.lemma_view();
            Datafile::lemma_marked_comment(plain, comment_node);
        }
        comment_node
    }

    /// Returns `line` without the white space at its ends.
    pub fn trim_line(line: &str) -> (text: &str)
        ensures
            text@ == trimmed(line@),
    {
        trim(line)
    }
}

} // verus!

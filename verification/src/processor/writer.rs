//! The writer: from a tree to the text of a document.

use crate::datafile::Datafile;
use crate::node::Node;
use crate::text::contains_char;
use vstd::prelude::*;
use vstd::string::StringExecFns;

verus! {

/// A value as it stands in a list: in quotes if it holds the separator.
pub open spec fn quoted(value: Seq<char>, separator: char) -> Seq<char> {
    if value.contains(separator) {
        seq!['"'] + value + seq!['"']
    } else {
        value
    }
}

/// The values of a list, each as it stands in one, with the separator and a
/// space between two of them.
pub open spec fn value_list(values: Seq<Seq<char>>, separator: char) -> Seq<char>
    decreases values.len(),
{
    if values.len() == 0 {
        Seq::empty()
    } else if values.len() == 1 {
        quoted(values[0], separator)
    } else {
        value_list(values.drop_last(), separator) + seq![separator, ' '] + quoted(
            values.last(),
            separator,
        )
    }
}

/// The start of the line of a child without children: its name, and ` = `
/// unless it is a comment.
pub open spec fn key_text(name: Seq<char>, node: Node, indentation: Seq<char>) -> Seq<char> {
    indentation + name + if node.comment {
        Seq::empty()
    } else {
        seq![' ', '=', ' ']
    }
}

/// The line of a child without children.
pub open spec fn value_line(
    name: Seq<char>,
    node: Node,
    separator: char,
    indentation: Seq<char>,
) -> Seq<char> {
    key_text(name, node, indentation) + value_list(node.values, separator) + seq!['\n']
}

/// The lines that open the scope of a child with children: a blank line,
/// the name, and the opening brace.
pub open spec fn header_text(name: Seq<char>, indentation: Seq<char>) -> Seq<char> {
    seq!['\n'] + indentation + name + seq!['\n'] + indentation + seq!['{', '\n']
}

/// The line that closes a scope.
pub open spec fn footer_text(indentation: Seq<char>) -> Seq<char> {
    indentation + seq!['}', '\n']
}

/// The text of the first `count` children of `node`, written with
/// `indentation` in front of each line. A child without children is one
/// line. A child with children is a scope; its own values are not written,
/// and the lines in it are indented by `unit` more.
pub open spec fn body_prefix(
    node: Node,
    count: nat,
    separator: char,
    unit: Seq<char>,
    indentation: Seq<char>,
) -> Seq<char>
    decreases node, count,
{
    if count == 0 || count > node.children.len() {
        Seq::empty()
    } else {
        let name = node.children[count - 1].0;
        let child = node.children[count - 1].1;
        body_prefix(node, (count - 1) as nat, separator, unit, indentation) + if child.children.len()
            == 0 {
            value_line(name, child, separator, indentation)
        } else {
            header_text(name, indentation) + body_prefix(
                child,
                child.children.len(),
                separator,
                unit,
                indentation + unit,
            ) + footer_text(indentation)
        }
    }
}

/// The text of all children of `node`.
pub open spec fn body(node: Node, separator: char, unit: Seq<char>, indentation: Seq<char>) -> Seq<
    char,
> {
    body_prefix(node, node.children.len(), separator, unit, indentation)
}

/// `text` without the line break that it starts with, if it starts with
/// one.
pub open spec fn without_leading_newline(text: Seq<char>) -> Seq<char> {
    if text.len() > 0 && text[0] == '\n' {
        text.skip(1)
    } else {
        text
    }
}

/// The document of a tree: the text of its children, written with the
/// separator and the indentation of the root.
pub open spec fn document(root: Node) -> Seq<char> {
    without_leading_newline(body(root, root.separator, root.indent, Seq::empty()))
}

/// Renders a tree as the text of a document.
pub struct Writer<'a> {
    /// The tree that the writer renders.
    pub data_file: &'a Datafile,
    buffer: String,
}

impl<'a> Writer<'a> {
    /// The value of the tree that the writer renders.
    pub closed spec fn tree(&self) -> Node {
        self.data_file@
    }

    /// The text that the writer has collected.
    pub closed spec fn text(&self) -> Seq<char> {
        self.buffer@
    }

    /// Creates a writer for `data_file` that has collected nothing.
    #[must_use]
    pub fn new(data_file: &'a Datafile) -> (writer: Self)
        ensures
            writer.tree() == data_file@,
            writer.text() == Seq::<char>::empty(),
    {
        Self { data_file, buffer: String::new() }
    }

    /// Adds the text of the tree to what the writer has collected, takes
    /// one leading line break off the whole, and returns it.
    pub fn write(&mut self) -> (text: String)
        ensures
            final(self).tree() == old(self).tree(),
            final(self).text() == without_leading_newline(
                old(self).text() + body(
                    old(self).tree(),
                    old(self).tree().separator,
                    old(self).tree().indent,
                    Seq::empty(),
                ),
            ),
            text@ == final(self).text(),
    {
        proof {
            reveal_strlit("");
            assert(""@ =~= Seq::<char>::empty());
        }
        self.write_node(self.data_file, "");
        let length = self.buffer.as_str().unicode_len();
        if length > 0 && self.buffer.as_str().get_char(0) == '\n' {
            let rest = self.buffer.as_str().substring_char(1, length).to_string();
            assert(rest@ =~= self.buffer@.skip(1));
            self.buffer = rest;
        }
        self.buffer.clone()
    }

    /// Adds the text of the children of `datafile`, each line behind
    /// `indentation`.
    pub fn write_node(&mut self, datafile: &Datafile, indentation: &str)
        ensures
            final(self).tree() == old(self).tree(),
            final(self).text() == old(self).text() + body(
                datafile@,
                old(self).tree().separator,
                old(self).tree().indent,
                indentation@,
            ),
        decreases datafile,
    {
        let ghost separator = self.data_file@.separator;
        let ghost unit = self.data_file@.indent;
        let ghost start = self.buffer@;
        proof {
            datafile.lemma_view();
            assert(start + Seq::<char>::empty() =~= start);
        }
        let mut i: usize = 0;
        while i < datafile.object_vec.len()
            invariant
                i <= datafile.object_vec.len(),
                self.tree() == old(self).tree(),
                separator == self.data_file@.separator,
                unit == self.data_file@.indent,
                start == old(self).buffer@,
                self.buffer@ == start + body_prefix(
                    datafile@,
                    i as nat,
                    separator,
                    unit,
                    indentation@,
                ),
            decreases datafile.object_vec.len() - i,
        {
            let ghost before = self.buffer@;
            let ghost done = body_prefix(datafile@, i as nat, separator, unit, indentation@);
            proof {
                datafile.lemma_view();
            }
            let name = datafile.object_vec[i].0.as_str();
            let node = &datafile.object_vec[i].1;
            proof {
                node.lemma_view();
            }
            if node.object_vec.is_empty() {
                self.write_key(node, name, indentation);
                self.write_value(node);
                proof {
                    let line = value_line(name@, node@, separator, indentation@);
                    assert(self.buffer@ =~= start + (done + line));
                }
            } else {
                self.write_node_header(indentation, name);
                let deeper = self.get_indentation(indentation);
                self.write_node(node, deeper.as_str());
                self.write_node_footer(indentation);
                proof {
                    let scope = header_text(name@, indentation@) + body(
                        node@,
                        separator,
                        unit,
                        indentation@ + unit,
                    ) + footer_text(indentation@);
                    assert(self.buffer@ =~= start + (done + scope));
                }
            }
            i = i + 1;
        }
    }

    /// Adds the start of the line of `node`: the indentation, the name,
    /// and ` = ` unless `node` is a comment.
    pub fn write_key(&mut self, node: &Datafile, name: &str, indentation: &str)
        ensures
            final(self).tree() == old(self).tree(),
            final(self).text() == old(self).text() + key_text(name@, node@, indentation@),
    {
        proof {
            node.lemma_view();
            reveal_strlit(" = ");
            assert(" = "@ =~= seq![' ', '=', ' ']);
        }
        self.buffer.append(indentation);
        self.buffer.append(name);
        if !node.is_comment {
            self.buffer.append(" = ");
        }
        proof {
            assert(self.buffer@ =~= old(self).buffer@ + key_text(name@, node@, indentation@));
        }
    }

    /// Adds the values of `node` as a list, and ends the line. A value that
    /// holds the separator is put in quotes.
    pub fn write_value(&mut self, node: &Datafile)
        ensures
            final(self).tree() == old(self).tree(),
            final(self).text() == old(self).text() + value_list(
                node@.values,
                old(self).tree().separator,
            ) + seq!['\n'],
    {
        let separator = self.data_file.list_separator;
        let ghost start = self.buffer@;
        proof {
            node.lemma_view();
            self.data_file.lemma_view();
            assert(node@.values.take(0) =~= Seq::<Seq<char>>::empty());
            assert(start + Seq::<char>::empty() =~= start);
        }
        let mut i: usize = 0;
        while i < node.contents.len()
            invariant
                i <= node.contents.len(),
                self.tree() == old(self).tree(),
                separator == self.data_file@.separator,
                start == old(self).buffer@,
                node@.values.len() == node.contents@.len(),
                forall|k: int|
                    0 <= k < node.contents@.len() ==> #[trigger] node@.values[k]
                        == node.contents@[k]@,
                self.buffer@ == start + value_list(node@.values.take(i as int), separator),
            decreases node.contents.len() - i,
        {
            let ghost done = value_list(node@.values.take(i as int), separator);
            let value = node.contents[i].as_str();
            proof {
                let next = node@.values.take(i + 1);
                assert(next.drop_last() =~= node@.values.take(i as int));
                assert(next.last() == value@);
            }
            if i > 0 {
                self.buffer.push(separator);
                self.buffer.push(' ');
            }
            if contains_char(value, separator) {
                self.buffer.push('"');
                self.buffer.append(value);
                self.buffer.push('"');
            } else {
                self.buffer.append(value);
            }
            proof {
                let next = value_list(node@.values.take(i + 1), separator);
                if i > 0 {
                    assert(self.buffer@ =~= start + (done + seq![separator, ' '] + quoted(
                        value@,
                        separator,
                    )));
                } else {
                    assert(self.buffer@ =~= start + quoted(value@, separator));
                }
                assert(self.buffer@ == start + next);
            }
            i = i + 1;
        }
        proof {
            assert(node@.values.take(node@.values.len() as int) =~= node@.values);
        }
        self.buffer.push('\n');
    }

    /// Adds the lines that open the scope of the child `name`.
    pub fn write_node_header(&mut self, indentation: &str, name: &str)
        ensures
            final(self).tree() == old(self).tree(),
            final(self).text() == old(self).text() + header_text(name@, indentation@),
    {
        self.buffer.push('\n');
        self.buffer.append(indentation);
        self.buffer.append(name);
        self.buffer.push('\n');
        self.buffer.append(indentation);
        self.buffer.push('{');
        self.buffer.push('\n');
        proof {
            assert(self.buffer@ =~= old(self).buffer@ + header_text(name@, indentation@));
        }
    }

    /// Adds the line that closes a scope.
    pub fn write_node_footer(&mut self, indentation: &str)
        ensures
            final(self).tree() == old(self).tree(),
            final(self).text() == old(self).text() + footer_text(indentation@),
    {
        self.buffer.append(indentation);
        self.buffer.push('}');
        self.buffer.push('\n');
        proof {
            assert(self.buffer@ =~= old(self).buffer@ + footer_text(indentation@));
        }
    }

    /// Returns the indentation of the lines one level below those behind
    /// `indentation`.
    pub fn get_indentation(&self, indentation: &str) -> (deeper: String)
        ensures
            deeper@ == indentation@ + self.tree().indent,
    {
        proof {
            self.data_file.lemma_view();
        }
        let mut deeper = indentation.to_string();
        deeper.append(self.data_file.whitespace_sequence.as_str());
        deeper
    }
}

} // verus!

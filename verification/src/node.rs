//! The mathematical value of a tree, and what a lookup, an assignment and a
//! path do to it.

use crate::lexical::integer::decimal;
use crate::lexical::integer::decimal_digits;
use crate::lexical::integer::integer_of;
use crate::lexical::integer::lemma_integer_round_trip;
use crate::text::first_index;
use vstd::prelude::*;

verus! {

/// The mathematical value of a node: what a
/// [`Datafile`](crate::datafile::Datafile) stands for in contracts.
pub struct Node {
    /// The character that separates the values of a list.
    pub separator: char,
    /// The text written once per nesting level in front of a line.
    pub indent: Seq<char>,
    /// Whether the node stands for a comment line.
    pub comment: bool,
    /// The values of the node, in order.
    pub values: Seq<Seq<char>>,
    /// The children of the node with their names, in order of insertion.
    pub children: Seq<(Seq<char>, Node)>,
}

impl Node {
    /// A node without values or children.
    pub open spec fn leaf(separator: char, indent: Seq<char>) -> Node {
        Node { separator, indent, comment: false, values: Seq::empty(), children: Seq::empty() }
    }

    /// A comment node: it carries neither values nor children.
    pub open spec fn comment_leaf(separator: char, indent: Seq<char>) -> Node {
        Node { separator, indent, comment: true, values: Seq::empty(), children: Seq::empty() }
    }

    /// Child `i` is the one that a lookup of `name` finds: comments are
    /// never found by name.
    pub open spec fn names(self, i: int, name: Seq<char>) -> bool {
        &&& 0 <= i < self.children.len()
        &&& self.children[i].0 == name
        &&& !self.children[i].1.comment
    }

    /// Whether a lookup of `name` finds a child.
    pub open spec fn has_child(self, name: Seq<char>) -> bool {
        exists|i: int| self.names(i, name)
    }

    /// The position of the child that a lookup of `name` finds.
    pub open spec fn child_index(self, name: Seq<char>) -> int {
        choose|i: int| self.names(i, name)
    }

    /// The child that a lookup of `name` finds.
    pub open spec fn child(self, name: Seq<char>) -> Node {
        self.children[self.child_index(name)].1
    }

    /// The node after a lookup of `name`: a missing child is appended as an
    /// empty leaf that inherits the formatting of `self`.
    pub open spec fn opened(self, name: Seq<char>) -> Node {
        if self.has_child(name) {
            self
        } else {
            Node {
                children: self.children.push((name, Node::leaf(self.separator, self.indent))),
                ..self
            }
        }
    }

    /// The node with child `i` replaced by `child`, under the same name.
    pub open spec fn with_child(self, i: int, child: Node) -> Node {
        Node { children: self.children.update(i, (self.children[i].0, child)), ..self }
    }

    /// The node with one more child at the end.
    pub open spec fn appended(self, name: Seq<char>, child: Node) -> Node {
        Node { children: self.children.push((name, child)), ..self }
    }

    /// The node with a comment line `name` at the end of its children.
    pub open spec fn with_comment(self, name: Seq<char>) -> Node {
        self.appended(name, Node::comment_leaf(self.separator, self.indent))
    }

    /// The value at `index`: the empty text where there is none.
    pub open spec fn value(self, index: int) -> Seq<char> {
        if 0 <= index < self.values.len() {
            self.values[index]
        } else {
            Seq::empty()
        }
    }

    /// The node with `text` as its value at `index`. Where the list was
    /// shorter, empty values fill it up to `index`.
    pub open spec fn with_value(self, index: int, text: Seq<char>) -> Node {
        Node {
            values: if index < self.values.len() {
                self.values.update(index, text)
            } else {
                (self.values + Seq::new(
                    (index - self.values.len()) as nat,
                    |i: int| Seq::<char>::empty(),
                )).push(text)
            },
            ..self
        }
    }

    /// The node with `texts` written over its first values.
    pub open spec fn with_values(self, texts: Seq<Seq<char>>) -> Node {
        Node {
            values: if texts.len() >= self.values.len() {
                texts
            } else {
                texts + self.values.skip(texts.len() as int)
            },
            ..self
        }
    }

    /// The node after `texts` were written to the child `key`: the child is
    /// looked up, and so made if it is missing, only if there is a text.
    pub open spec fn assigned(self, key: Seq<char>, texts: Seq<Seq<char>>) -> Node {
        if texts.len() == 0 {
            self
        } else {
            let opened = self.opened(key);
            opened.with_child(opened.child_index(key), opened.child(key).with_values(texts))
        }
    }

    /// The node after a lookup of each name of `path` in turn, each in the
    /// child that the lookup before it found.
    pub open spec fn opened_path(self, path: Seq<Seq<char>>) -> Node
        decreases path.len(),
    {
        if path.len() == 0 {
            self
        } else {
            let opened = self.opened(path[0]);
            opened.with_child(
                opened.child_index(path[0]),
                opened.child(path[0]).opened_path(path.skip(1)),
            )
        }
    }

    /// The node that lookups of the names of `path` lead to.
    pub open spec fn descendant(self, path: Seq<Seq<char>>) -> Node
        decreases path.len(),
    {
        if path.len() == 0 {
            self
        } else {
            self.child(path[0]).descendant(path.skip(1))
        }
    }

    /// No two children that a lookup can find share a name.
    pub open spec fn unique_names(self) -> bool {
        forall|i: int, j: int, name: Seq<char>|
            self.names(i, name) && self.names(j, name) ==> i == j
    }

    /// What holds of every tree that the library builds: at every level no
    /// two children that a lookup can find share a name.
    pub open spec fn well_formed(self) -> bool
        decreases self,
    {
        &&& self.unique_names()
        &&& forall|i: int|
            0 <= i < self.children.len() ==> (#[trigger] self.children[i]).1.well_formed()
    }
}

impl Node {
    /// A lookup finds the child it is asked for, and a child that it has to
    /// make stands at the end.
    pub proof fn lemma_opened(self, name: Seq<char>)
        requires
            self.unique_names(),
        ensures
            self.opened(name).unique_names(),
            self.opened(name).has_child(name),
            self.opened(name).names(self.opened(name).child_index(name), name),
            self.has_child(name) ==> self.opened(name) == self,
            !self.has_child(name) ==> self.opened(name).child_index(name) == self.children.len(),
            self.opened(name).comment == self.comment,
            self.opened(name).separator == self.separator,
            self.opened(name).indent == self.indent,
            self.opened(name).values == self.values,
    {
        let opened = self.opened(name);
        if !self.has_child(name) {
            let last = self.children.len() as int;
            assert(opened.names(last, name));
            assert forall|i: int, j: int, other: Seq<char>|
                opened.names(i, other) && opened.names(j, other) implies i == j by {
                if i < last && j < last {
                    assert(self.names(i, other) && self.names(j, other));
                } else if i < last {
                    assert(self.names(i, name));
                } else if j < last {
                    assert(self.names(j, name));
                }
            }
        }
    }

    /// Replacing a child by one that is a comment if and only if the old
    /// one was changes nothing that a lookup sees.
    pub proof fn lemma_with_child(self, i: int, child: Node)
        requires
            0 <= i < self.children.len(),
            child.comment == self.children[i].1.comment,
        ensures
            forall|j: int, name: Seq<char>|
                self.with_child(i, child).names(j, name) == self.names(j, name),
            self.unique_names() ==> self.with_child(i, child).unique_names(),
            forall|name: Seq<char>|
                self.with_child(i, child).has_child(name) == self.has_child(name),
            forall|name: Seq<char>|
                self.unique_names() && self.has_child(name) ==> #[trigger] self.with_child(
                    i,
                    child,
                ).child_index(name) == self.child_index(name),
    {
        let after = self.with_child(i, child);
        assert forall|j: int, name: Seq<char>| after.names(j, name) == self.names(j, name) by {}
        assert forall|name: Seq<char>| after.has_child(name) == self.has_child(name) by {
            if self.has_child(name) {
                assert(after.names(self.child_index(name), name));
            }
            if after.has_child(name) {
                assert(self.names(after.child_index(name), name));
            }
        }
        assert forall|name: Seq<char>|
            self.unique_names() && self.has_child(name) implies #[trigger] after.child_index(name)
            == self.child_index(name) by {
            assert(after.names(self.child_index(name), name));
            assert(self.names(after.child_index(name), name));
        }
    }

    /// A second lookup of a name finds the child of the first lookup, as
    /// the caller left it, and makes no new entry. Where the name was
    /// missing, the first lookup made one entry, at the end: an empty child
    /// with the formatting of the node.
    pub proof fn lemma_repeated_lookup(self, name: Seq<char>, changed: Node)
        requires
            self.unique_names(),
            !changed.comment,
        ensures
            ({
                let first = self.opened(name);
                let index = first.child_index(name);
                let left = first.with_child(index, changed);
                &&& left.opened(name) == left
                &&& left.child_index(name) == index
                &&& left.child(name) == changed
                &&& left.children.len() == first.children.len()
                &&& left.unique_names()
                &&& self.has_child(name) ==> first == self
                &&& !self.has_child(name) ==> {
                    &&& index == self.children.len()
                    &&& first.children.len() == self.children.len() + 1
                    &&& first.child(name) == Node::leaf(self.separator, self.indent)
                }
            }),
    {
        self.lemma_opened(name);
        let first = self.opened(name);
        let index = first.child_index(name);
        first.lemma_with_child(index, changed);
        let left = first.with_child(index, changed);
        assert(left.names(index, name));
    }

    /// Setting a value sets that value and no other, and leaves no gap: the
    /// list is as long as before, or just long enough to hold the value,
    /// and a value that it had to make on the way is empty.
    pub proof fn lemma_with_value(self, index: int, text: Seq<char>)
        requires
            0 <= index,
        ensures
            self.with_value(index, text).values.len() == if index < self.values.len() {
                self.values.len() as int
            } else {
                index + 1
            },
            self.with_value(index, text).value(index) == text,
            forall|i: int| i != index ==> self.with_value(index, text).value(i) == self.value(i),
            self.with_value(index, text).children == self.children,
            self.with_value(index, text).comment == self.comment,
    {
    }

    /// An integer that was stored is read back: the value at `index` of a
    /// node is read as `v` once the text of `v` has been set there.
    pub proof fn lemma_integer_value_round_trip(self, index: int, v: i32)
        requires
            0 <= index,
        ensures
            integer_of(self.with_value(index, decimal(v as int)).value(index)) == v,
    {
        self.lemma_with_value(index, decimal(v as int));
        lemma_integer_round_trip(v);
    }

    /// Lookups along a path change neither the formatting of a node nor
    /// whether it is a comment.
    pub proof fn lemma_opened_path(self, path: Seq<Seq<char>>)
        requires
            self.unique_names(),
        ensures
            self.opened_path(path).comment == self.comment,
            self.opened_path(path).separator == self.separator,
            self.opened_path(path).indent == self.indent,
            self.opened_path(path).values == self.values,
    {
        if path.len() > 0 {
            self.lemma_opened(path[0]);
        }
    }

    /// Writing one more value to a child is writing the longer list of
    /// values to it.
    pub proof fn lemma_assigned_next(self, name: Seq<char>, done: Seq<Seq<char>>, text: Seq<char>)
        requires
            self.unique_names(),
        ensures
            ({
                let current = self.assigned(name, done).opened(name);
                current.with_child(
                    current.child_index(name),
                    current.child(name).with_value(done.len() as int, text),
                )
            }) == self.assigned(name, done.push(text)),
            self.assigned(name, done).unique_names(),
    {
        let opened = self.opened(name);
        let i = opened.child_index(name);
        let child = opened.child(name);
        self.lemma_opened(name);
        let count = done.len() as int;
        let longer = child.with_values(done.push(text));
        assert(child.with_values(done).with_value(count, text).values =~= longer.values);
        assert(child.with_values(done).with_value(count, text) == longer);
        if done.len() == 0 {
            assert(child.with_values(done).values =~= child.values);
            assert(child.with_values(done) == child);
        } else {
            let current = self.assigned(name, done);
            opened.lemma_with_child(i, child.with_values(done));
            assert(current == opened.with_child(i, child.with_values(done)));
            assert(current.names(i, name));
            assert(current.has_child(name));
            assert(current.opened(name) == current);
            assert(current.child_index(name) == i);
            assert(current.child(name) == child.with_values(done));
            assert(current.with_child(i, longer).children =~= opened.with_child(i, longer).children);
        }
    }
}

/// The names in a path: the pieces of `path` between its periods.
pub open spec fn path_names(path: Seq<char>) -> Seq<Seq<char>>
    decreases path.len(),
{
    let at = first_index(path, '.');
    if 0 <= at < path.len() {
        seq![path.take(at)] + path_names(path.skip(at + 1))
    } else {
        seq![path]
    }
}

/// The path of the element `index` of the list `name`: the name, and the
/// index in square brackets.
pub open spec fn indexed_path(name: Seq<char>, index: nat) -> Seq<char> {
    name + seq!['['] + decimal_digits(index) + seq![']']
}

} // verus!

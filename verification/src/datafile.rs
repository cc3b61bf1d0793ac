//! The tree of a document: nodes with values and named children.

use crate::lexical::integer::decimal;
use crate::lexical::integer::integer_of;
use crate::lexical::integer::push_digits;
use crate::lexical::Serializable;
use crate::node::indexed_path;
use crate::node::path_names;
use crate::node::Node;
use crate::processor::reader::lines_of;
use crate::processor::reader::parse_scope;
use crate::processor::reader::Reader;
use crate::processor::writer::document;
use crate::processor::writer::Writer;
use crate::text::find_char;
use vstd::hash_map::StringHashMap;
use vstd::prelude::*;

verus! {

/// The separator of a tree that was made without one.
pub const DEFAULT_LIST_SEPARATOR: char = ',';

/// The separator that a new tree gets.
pub open spec fn default_separator(given: Option<char>) -> char {
    match given {
        Some(c) => c,
        None => ',',
    }
}

/// The indentation that a new tree gets.
pub open spec fn default_indent(given: Option<&str>) -> Seq<char> {
    match given {
        Some(text) => text@,
        None => seq!['\t'],
    }
}

/// A node of a document, and with its children the whole tree below it.
pub struct Datafile {
    /// The character that separates the values of a list. Defaults to `,`.
    pub list_separator: char,
    /// The text written once per nesting level. Defaults to one tab.
    pub whitespace_sequence: String,
    pub(crate) is_comment: bool,
    pub(crate) contents: Vec<String>,
    pub(crate) object_vec: Vec<(String, Datafile)>,
    pub(crate) object_map: StringHashMap<usize>,
}

impl View for Datafile {
    type V = Node;

    closed spec fn view(&self) -> Node {
        self.model()
    }
}

impl Clone for Datafile {
    /// A tree of its own with the same value.
    fn clone(&self) -> (copy: Self)
        ensures
            copy@ == self@,
            self.wf() ==> copy.wf(),
        decreases self,
    {
        let mut contents: Vec<String> = Vec::new();
        let mut k: usize = 0;
        while k < self.contents.len()
            invariant
                k <= self.contents.len(),
                contents@.len() == k,
                forall|j: int| 0 <= j < k ==> #[trigger] contents@[j] == self.contents@[j],
            decreases self.contents.len() - k,
        {
            contents.push(self.contents[k].clone());
            k = k + 1;
        }
        let mut object_vec: Vec<(String, Datafile)> = Vec::new();
        let mut object_map: StringHashMap<usize> = StringHashMap::new();
        let mut i: usize = 0;
        while i < self.object_vec.len()
            invariant
                i <= self.object_vec.len(),
                object_vec@.len() == i,
                forall|j: int|
                    0 <= j < i ==> {
                        &&& (#[trigger] object_vec@[j]).0@ == self.object_vec@[j].0@
                        &&& object_vec@[j].1@ == self.object_vec@[j].1@
                        &&& object_vec@[j].1.is_comment == self.object_vec@[j].1.is_comment
                        &&& self.object_vec@[j].1.wf() ==> object_vec@[j].1.wf()
                    },
                forall|name: Seq<char>| #[trigger]
                    object_map@.contains_key(name) ==> {
                        let at = object_map@[name];
                        &&& at < i
                        &&& object_vec@[at as int].0@ == name
                        &&& !object_vec@[at as int].1.is_comment
                    },
                self.indexed() ==> forall|j: int|
                    0 <= j < i && !(#[trigger] object_vec@[j]).1.is_comment ==> {
                        &&& object_map@.contains_key(object_vec@[j].0@)
                        &&& object_map@[object_vec@[j].0@] == j
                    },
            decreases self.object_vec.len() - i,
        {
            let name = self.object_vec[i].0.clone();
            let child = self.object_vec[i].1.clone();
            proof {
                child.lemma_view();
                self.object_vec@[i as int].1.lemma_view();
            }
            if !child.is_comment {
                proof {
                    if self.indexed() {
                        assert forall|j: int|
                            0 <= j < i && !(#[trigger] object_vec@[j]).1.is_comment
                            implies object_vec@[j].0@ != name@ by {
                            assert(!self.object_vec@[j].1.is_comment);
                            assert(!self.object_vec@[i as int].1.is_comment);
                        }
                    }
                }
                object_map.insert(name.clone(), i);
            }
            object_vec.push((name, child));
            i = i + 1;
        }
        let copy = Self {
            list_separator: self.list_separator,
            whitespace_sequence: self.whitespace_sequence.clone(),
            is_comment: self.is_comment,
            contents,
            object_vec,
            object_map,
        };
        proof {
            copy.lemma_view();
            self.lemma_view();
            assert(copy@.values =~= self@.values);
            assert(copy@.children =~= self@.children);
            if self.wf() {
                assert(copy.indexed());
                assert forall|j: int| 0 <= j < copy.object_vec@.len() implies (
                #[trigger] copy.object_vec@[j]).1.wf() by {
                    assert(self.object_vec@[j].1.wf());
                }
                copy.lemma_wf_unfold();
            }
        }
        copy
    }
}

impl Default for Datafile {
    /// An empty tree with `,` as its separator and one tab as its
    /// indentation.
    fn default() -> (datafile: Self)
        ensures
            datafile.wf(),
            datafile@ == Node::leaf(',', seq!['\t']),
    {
        Self::new(None, None)
    }
}

impl Datafile {
    /// The value of the tree, by recursion over the children.
    spec fn model(&self) -> Node
        decreases self,
    {
        Node {
            separator: self.list_separator,
            indent: self.whitespace_sequence@,
            comment: self.is_comment,
            values: Seq::new(self.contents@.len(), |i: int| self.contents@[i]@),
            children: Seq::new(
                self.object_vec@.len(),
                |i: int|
                    if 0 <= i < self.object_vec@.len() {
                        (self.object_vec@[i].0@, self.object_vec@[i].1.model())
                    } else {
                        arbitrary()
                    },
            ),
        }
    }
}

impl Datafile {
    /// The index agrees with the list of children: it maps each name that a
    /// lookup can find to the position of its child, and nothing else.
    spec fn indexed(&self) -> bool {
        &&& forall|name: Seq<char>| #[trigger]
            self.object_map@.contains_key(name) ==> {
                let i = self.object_map@[name];
                &&& i < self.object_vec@.len()
                &&& self.object_vec@[i as int].0@ == name
                &&& !self.object_vec@[i as int].1.is_comment
            }
        &&& forall|i: int|
            0 <= i < self.object_vec@.len() && !(#[trigger] self.object_vec@[i]).1.is_comment ==> {
                &&& self.object_map@.contains_key(self.object_vec@[i].0@)
                &&& self.object_map@[self.object_vec@[i].0@] == i
            }
    }

    /// The invariant of the tree: at every level the index agrees with the
    /// children.
    pub closed spec fn wf(&self) -> bool
        decreases self,
    {
        &&& self.indexed()
        &&& forall|i: int|
            0 <= i < self.object_vec@.len() ==> (#[trigger] self.object_vec@[i]).1.wf()
    }

    /// A tree that meets the invariant has a well-formed value.
    pub proof fn lemma_wf_view(&self)
        requires
            self.wf(),
        ensures
            self@.well_formed(),
        decreases self,
    {
        let node = self@;
        self.lemma_view();
        assert forall|i: int, j: int, name: Seq<char>|
            node.names(i, name) && node.names(j, name) implies i == j by {
            assert(!self.object_vec@[i].1.is_comment);
            assert(!self.object_vec@[j].1.is_comment);
        }
        assert forall|i: int| 0 <= i < node.children.len() implies (
        #[trigger] node.children[i]).1.well_formed() by {
            assert(self.object_vec@[i].1.wf());
            self.object_vec@[i].1.lemma_wf_view();
        }
    }

    /// `after` is `before` with child `index` replaced by `child`.
    spec fn replaces(before: Datafile, after: Datafile, index: int, child: Datafile) -> bool {
        &&& after.list_separator == before.list_separator
        &&& after.whitespace_sequence == before.whitespace_sequence
        &&& after.is_comment == before.is_comment
        &&& after.contents == before.contents
        &&& after.object_map == before.object_map
        &&& after.object_vec@ == before.object_vec@.update(
            index,
            (before.object_vec@[index].0, child),
        )
    }

    /// Replacing a child replaces it in the value of the tree, and keeps the
    /// invariant if the new child meets it and is a comment if and only if
    /// the old one was.
    proof fn lemma_replaces(before: Datafile, after: Datafile, index: int, child: Datafile)
        requires
            0 <= index < before.object_vec@.len(),
            Self::replaces(before, after, index, child),
        ensures
            after@ == before@.with_child(index, child@),
            before.wf() && child.wf() && child.is_comment == before.object_vec@[index].1.is_comment
                ==> after.wf(),
    {
        before.lemma_view();
        after.lemma_view();
        assert(after@.children =~= before@.with_child(index, child@).children);
        assert(after@.values =~= before@.values);
        if before.wf() && child.wf() && child.is_comment == before.object_vec@[index].1.is_comment {
            assert forall|i: int| 0 <= i < after.object_vec@.len() implies (
            #[trigger] after.object_vec@[i]).1.wf() by {
                if i != index {
                    assert(before.object_vec@[i].1.wf());
                }
            }
            assert(after.indexed()) by {
                assert forall|name: Seq<char>| #[trigger]
                    after.object_map@.contains_key(name) implies {
                    let i = after.object_map@[name];
                    &&& i < after.object_vec@.len()
                    &&& after.object_vec@[i as int].0@ == name
                    &&& !after.object_vec@[i as int].1.is_comment
                } by {
                    assert(before.object_map@.contains_key(name));
                }
                assert forall|i: int|
                    0 <= i < after.object_vec@.len() && !(#[trigger] after.object_vec@[
                        i
                    ]).1.is_comment implies after.object_map@.contains_key(
                    after.object_vec@[i].0@,
                ) && after.object_map@[after.object_vec@[i].0@] == i by {
                    assert(!before.object_vec@[i].1.is_comment);
                }
            }
            after.lemma_wf_unfold();
        }
    }

    /// Marking a node as a comment changes nothing else.
    pub(crate) proof fn lemma_marked_comment(before: Datafile, after: Datafile)
        requires
            before.wf(),
            after == (Datafile { is_comment: true, ..before }),
        ensures
            after.wf(),
            after@ == (Node { comment: true, ..before@ }),
    {
        before.lemma_view();
        after.lemma_view();
        assert(after@.values =~= before@.values);
        assert(after@.children =~= before@.children);
        assert(after.indexed());
        assert forall|i: int| 0 <= i < after.object_vec@.len() implies (
        #[trigger] after.object_vec@[i]).1.wf() by {
            assert(before.object_vec@[i].1.wf());
        }
        after.lemma_wf_unfold();
    }

    /// A node without children meets the invariant if its index is empty.
    proof fn lemma_wf_leaf(&self)
        requires
            self.indexed(),
            self.object_vec@.len() == 0,
        ensures
            self.wf(),
    {
    }

    /// The invariant of a tree from that of its children.
    proof fn lemma_wf_unfold(&self)
        requires
            self.indexed(),
            forall|i: int|
                0 <= i < self.object_vec@.len() ==> (#[trigger] self.object_vec@[i]).1.wf(),
        ensures
            self.wf(),
    {
    }

    /// The value of a tree, field by field.
    pub(crate) proof fn lemma_view(&self)
        ensures
            self@.separator == self.list_separator,
            self@.indent == self.whitespace_sequence@,
            self@.comment == self.is_comment,
            self@.values.len() == self.contents@.len(),
            forall|i: int|
                0 <= i < self.contents@.len() ==> #[trigger] self@.values[i] == self.contents@[i]@,
            self@.children.len() == self.object_vec@.len(),
            forall|i: int|
                0 <= i < self.object_vec@.len() ==> #[trigger] self@.children[i] == (
                    self.object_vec@[i].0@,
                    self.object_vec@[i].1@,
                ),
            forall|i: int|
                0 <= i < self.object_vec@.len() ==> (#[trigger] self@.children[i]).1.comment
                    == self.object_vec@[i].1.is_comment,
    {
        assert forall|i: int| 0 <= i < self.object_vec@.len() implies (
        #[trigger] self@.children[i]).1.comment == self.object_vec@[i].1.is_comment by {
            let child = self.object_vec@[i].1;
            assert(child@.comment == child.is_comment);
        }
    }

    /// The index finds what a lookup in the value of the tree finds.
    proof fn lemma_lookup(&self, name: Seq<char>)
        requires
            self.indexed(),
        ensures
            self.object_map@.contains_key(name) == self@.has_child(name),
            self.object_map@.contains_key(name) ==> self@.child_index(name) == self.object_map@[name],
            self@.unique_names(),
    {
        let node = self@;
        self.lemma_view();
        assert forall|i: int, j: int, name: Seq<char>|
            node.names(i, name) && node.names(j, name) implies i == j by {
            assert(!self.object_vec@[i].1.is_comment);
            assert(!self.object_vec@[j].1.is_comment);
        }
        if self.object_map@.contains_key(name) {
            let i = self.object_map@[name] as int;
            assert(node.names(i, name));
        }
        if node.has_child(name) {
            let i = node.child_index(name);
            assert(!self.object_vec@[i].1.is_comment);
        }
    }

    /// Creates an empty tree. A separator or an indentation that is not
    /// given defaults to `,` and to one tab.
    #[must_use]
    pub fn new(list_separator: Option<char>, whitespace_sequence: Option<&str>) -> (datafile: Self)
        ensures
            datafile.wf(),
            datafile@ == Node::leaf(
                default_separator(list_separator),
                default_indent(whitespace_sequence),
            ),
    {
        let separator = match list_separator {
            Some(c) => c,
            None => DEFAULT_LIST_SEPARATOR,
        };
        let indent = match whitespace_sequence {
            Some(text) => text.to_string(),
            None => {
                proof {
                    reveal_strlit("\t");
                }
                assert("\t"@ =~= seq!['\t']);
                "\t".to_string()
            },
        };
        let datafile = Self {
            list_separator: separator,
            whitespace_sequence: indent,
            is_comment: false,
            contents: Vec::new(),
            object_vec: Vec::new(),
            object_map: StringHashMap::new(),
        };
        proof {
            datafile.lemma_view();
            assert(datafile@.values =~= Seq::empty());
            assert(datafile@.children =~= Seq::empty());
            assert(datafile.indexed());
            datafile.lemma_wf_leaf();
        }
        datafile
    }

    /// Appends `object` under `name` without entering it in the index: a
    /// lookup never finds it.
    pub(crate) fn push_object(&mut self, name: &str, object: Self)
        requires
            old(self).wf(),
            object.wf(),
            object@.comment,
        ensures
            final(self).wf(),
            final(self)@ == old(self)@.appended(name@, object@),
    {
        proof {
            self.lemma_view();
        }
        self.object_vec.push((name.to_string(), object));
        proof {
            self.lemma_view();
            object.lemma_view();
            assert(self@.children =~= old(self)@.children.push((name@, object@)));
            assert(self@.values =~= old(self)@.values);
            assert forall|i: int| 0 <= i < self.object_vec@.len() implies (
            #[trigger] self.object_vec@[i]).1.wf() by {
                if i < old(self).object_vec@.len() {
                    assert(old(self).object_vec@[i].1.wf());
                }
            }
            assert forall|i: int|
                0 <= i < self.object_vec@.len() && !(#[trigger] self.object_vec@[i]).1.is_comment
                implies self.object_map@.contains_key(self.object_vec@[i].0@)
                && self.object_map@[self.object_vec@[i].0@] == i by {
                assert(!old(self).object_vec@[i].1.is_comment);
            }
        }
    }

    /// Returns the child that a lookup of `name` finds. If there is none, an
    /// empty child is appended first, with the formatting of `self`. What
    /// the caller does to the child is done to the tree.
    pub fn get(&mut self, name: &str) -> (child: &mut Self)
        requires
            old(self).wf(),
        ensures
            child.wf(),
            child@ == old(self)@.opened(name@).child(name@),
            final(self)@ == old(self)@.opened(name@).with_child(
                old(self)@.opened(name@).child_index(name@),
                final(child)@,
            ),
            final(child).wf() && !final(child)@.comment ==> final(self).wf(),
    {
        proof {
            self.lemma_lookup(name@);
            self.lemma_view();
        }
        if !self.object_map.contains_key(name) {
            let position = self.object_vec.len();
            let fresh = Self::new(Some(self.list_separator), Some(self.whitespace_sequence.as_str()));
            self.object_map.insert(name.to_string(), position);
            self.object_vec.push((name.to_string(), fresh));
            proof {
                fresh.lemma_view();
                self.lemma_view();
                assert(self@.children =~= old(self)@.opened(name@).children);
                assert(self@.values =~= old(self)@.values);
                assert(self@ == old(self)@.opened(name@));
                assert forall|i: int| 0 <= i < self.object_vec@.len() implies (
                #[trigger] self.object_vec@[i]).1.wf() by {
                    if i < old(self).object_vec@.len() {
                        assert(old(self).object_vec@[i].1.wf());
                    }
                }
                assert(self.indexed()) by {
                    assert forall|i: int|
                        0 <= i < self.object_vec@.len() && !(#[trigger] self.object_vec@[
                            i
                        ]).1.is_comment implies self.object_map@.contains_key(
                        self.object_vec@[i].0@,
                    ) && self.object_map@[self.object_vec@[i].0@] == i by {
                        if i < old(self).object_vec@.len() {
                            assert(!old(self).object_vec@[i].1.is_comment);
                        }
                    }
                }
                assert(self.wf());
            }
        }
        proof {
            self.lemma_lookup(name@);
            self.lemma_view();
        }
        let ghost before = *self;
        let position = *self.object_map.get(name).unwrap();
        proof {
            assert(before.object_vec@[position as int].1.wf());
            assert forall|after: Datafile, child: Datafile|
                #![trigger after.model(), child.model()]
                Self::replaces(before, after, position as int, child) implies after@
                == before@.with_child(position as int, child@) && (child.wf() && !child@.comment
                ==> after.wf()) by {
                child.lemma_view();
                Self::lemma_replaces(before, after, position as int, child);
            }
        }
        let child = &mut self.object_vec[position].1;
        child
    }

    /// Sets the value at `index` to `value`. Where the list of values is
    /// shorter, empty values fill it up to `index`.
    pub fn set_string(&mut self, value: &str, index: usize)
        requires
            old(self).wf(),
            index < usize::MAX,
        ensures
            final(self).wf(),
            final(self)@ == old(self)@.with_value(index as int, value@),
    {
        proof {
            self.lemma_view();
        }
        if index >= self.contents.len() {
            self.contents.resize(index + 1, String::new());
        }
        self.contents.set(index, value.to_string());
        proof {
            self.lemma_view();
            assert(self@.values =~= old(self)@.with_value(index as int, value@).values);
            assert(self@.children =~= old(self)@.children);
            assert(self.indexed());
            assert forall|i: int| 0 <= i < self.object_vec@.len() implies (
            #[trigger] self.object_vec@[i]).1.wf() by {
                assert(old(self).object_vec@[i].1.wf());
            }
            self.lemma_wf_unfold();
        }
    }

    /// Returns the value at `index`: the empty text where there is none.
    #[must_use]
    pub fn get_string(&self, index: usize) -> (value: String)
        ensures
            value@ == self@.value(index as int),
    {
        proof {
            self.lemma_view();
        }
        if index < self.contents.len() {
            self.contents[index].clone()
        } else {
            String::new()
        }
    }

    /// Returns the number of values of this node. Those of its children do
    /// not count.
    #[must_use]
    pub fn get_value_count(&self) -> (count: usize)
        ensures
            count == self@.values.len(),
    {
        proof {
            self.lemma_view();
        }
        self.contents.len()
    }

    /// Returns the node at the end of the path `name`, whose names are
    /// separated by periods. Each name is looked up in the node that the
    /// name before it led to, and a node that is missing is made.
    pub fn get_property(&mut self, name: &str) -> (node: &Self)
        requires
            old(self).wf(),
        ensures
            final(self).wf(),
            final(self)@ == old(self)@.opened_path(path_names(name@)),
            node@ == final(self)@.descendant(path_names(name@)),
            !node@.comment,
        decreases name@.len(),
    {
        let (dot, length) = find_char(name, '.');
        let ghost before = self@;
        let ghost names = path_names(name@);
        proof {
            self.lemma_wf_view();
        }
        match dot {
            None => {
                proof {
                    before.lemma_opened(name@);
                    let opened = before.opened(name@);
                    let found = opened.child(name@);
                    assert(names =~= seq![name@]);
                    assert(names.skip(1) =~= Seq::<Seq<char>>::empty());
                    opened.lemma_with_child(opened.child_index(name@), found);
                    let result = opened.with_child(opened.child_index(name@), found);
                    assert(found.opened_path(names.skip(1)) == found);
                    assert(before.opened_path(names) == result);
                    assert(result.child(name@) == found);
                    assert(found.descendant(names.skip(1)) == found);
                    assert(result.descendant(names) == found);
                }
                self.get(name)
            },
            Some(at) => {
                let head = name.substring_char(0, at);
                let rest = name.substring_char(at + 1, length);
                let child = self.get(head);
                proof {
                    assert(head@ =~= name@.take(at as int));
                    assert(rest@ =~= name@.skip(at + 1));
                    assert(names.skip(1) =~= path_names(rest@));
                    before.lemma_opened(head@);
                    let opened = before.opened(head@);
                    let grown = child@.opened_path(path_names(rest@));
                    child.lemma_wf_view();
                    child@.lemma_opened_path(path_names(rest@));
                    opened.lemma_with_child(opened.child_index(head@), grown);
                    let result = opened.with_child(opened.child_index(head@), grown);
                    assert(names[0] == head@);
                    assert(before.opened_path(names) == result);
                    assert(result.child(head@) == grown);
                    assert(result.descendant(names) == grown.descendant(path_names(rest@)));
                }
                child.get_property(rest)
            },
        }
    }

    /// Returns the node at the end of the path that is `name` with `index`
    /// in square brackets behind it. The brackets are part of the last name
    /// of the path: they select no value.
    pub fn get_indexed_property(&mut self, name: &str, index: usize) -> (node: &Self)
        requires
            old(self).wf(),
        ensures
            final(self).wf(),
            final(self)@ == old(self)@.opened_path(path_names(indexed_path(name@, index as nat))),
            node@ == final(self)@.descendant(path_names(indexed_path(name@, index as nat))),
    {
        let mut path = name.to_string();
        path.push('[');
        push_digits(&mut path, index as u64);
        path.push(']');
        assert(path@ =~= indexed_path(name@, index as nat));
        self.get_property(path.as_str())
    }

    /// Sets the value at `index` to the text of `value`.
    pub fn set_integer(&mut self, value: i32, index: usize)
        requires
            old(self).wf(),
            index < usize::MAX,
        ensures
            final(self).wf(),
            final(self)@ == old(self)@.with_value(index as int, decimal(value as int)),
    {
        let text = value.serialize();
        self.set_string(text.as_str(), index);
    }

    /// Returns the integer that the value at `index` is read as: 0 where
    /// there is no value, or one that denotes no number.
    #[must_use]
    pub fn get_integer(&self, index: usize) -> (value: i32)
        ensures
            value == integer_of(self@.value(index as int)),
    {
        let text = self.get_string(index);
        i32::deserialize(text.as_str())
    }

    /// Reads the lines of a document into the tree. What the tree held
    /// before stays, unless a line writes over it.
    pub fn read(&mut self, lines: &Vec<String>)
        requires
            old(self).wf(),
        ensures
            final(self).wf(),
            final(self)@ == parse_scope(old(self)@, lines_of(lines@), 0).0,
    {
        let reader = Reader::new(self);
        reader.read(lines);
    }

    /// Returns the text of the document of the tree.
    pub fn write(&self) -> (text: String)
        ensures
            text@ == document(self@),
    {
        let mut writer = Writer::new(self);
        writer.write()
    }

    /// Checks if a lookup of `name` finds a child.
    pub fn has_property(&self, name: &str) -> (found: bool)
        requires
            self.wf(),
        ensures
            found == self@.has_child(name@),
    {
        proof {
            self.lemma_lookup(name@);
        }
        self.object_map.contains_key(name)
    }
}

} // verus!

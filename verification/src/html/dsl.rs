//! The element stack behind the html builder functions: elements are opened, filled with
//! children and attributes, and closed into their parent.
use vstd::prelude::*;

use super::element::{insert_attribute, valid_html_name, Attribute, Element, Node};

verus! {

/// The value given to an attribute.
pub enum AttrValue {
    String(String),
    Bool(bool),
}

/// Children produced by a piece of content.
pub enum Children {
    Empty,
    Node(Node),
    List(Vec<Node>),
}

/// The nodes a piece of content adds.
pub open spec fn children_nodes(c: Children) -> Seq<Node> {
    match c {
        Children::Empty => Seq::empty(),
        Children::Node(n) => seq![n],
        Children::List(v) => v@,
    }
}

/// The stack of elements being built, innermost last.
pub struct HtmlContext {
    elements: Vec<Element>,
    in_document: bool,
}

impl HtmlContext {
    /// The open elements, outermost first.
    pub closed spec fn stack(&self) -> Seq<Element> {
        self.elements@
    }

    /// Whether a document is being built (the context values are available).
    pub closed spec fn spec_in_document(&self) -> bool {
        self.in_document
    }

    /// No element is open.
    pub fn new() -> (r: Self)
        ensures
            r.stack() == Seq::<Element>::empty(),
            !r.spec_in_document(),
    {
        HtmlContext { elements: Vec::new(), in_document: false }
    }

    /// Whether a document is being built.
    pub fn in_document(&self) -> (r: bool)
        ensures
            r == self.spec_in_document(),
    {
        self.in_document
    }

    /// Number of open elements.
    pub fn depth(&self) -> (r: usize)
        ensures
            r == self.stack().len(),
    {
        self.elements.len()
    }

    /// Opens an element with the given tag.
    pub fn open(&mut self, tag: String, is_void: bool)
        requires
            valid_html_name(tag@),
        ensures
            final(self).spec_in_document(),
            final(self).stack().len() == old(self).stack().len() + 1,
            final(self).stack().drop_last() == old(self).stack(),
            final(self).stack().last().spec_tag() == tag@,
            final(self).stack().last().spec_is_void() == is_void,
            final(self).stack().last().spec_attributes() == Seq::<Attribute>::empty(),
            final(self).stack().last().spec_children() == Seq::<Node>::empty(),
    {
        let e = Element::builder(tag).is_void(is_void).build();
        self.elements.push(e);
        self.in_document = true;
        assert(self.elements@.drop_last() =~= old(self).elements@);
    }

    /// Adds children to the innermost open element.
    pub fn add_children(&mut self, children: Children)
        ensures
            final(self).spec_in_document() == old(self).spec_in_document(),
            final(self).stack().len() == old(self).stack().len(),
            old(self).stack().len() > 0 ==> final(self).stack().drop_last() == old(self).stack().drop_last()
                && final(self).stack().last().spec_children() == old(self).stack().last().spec_children() + children_nodes(children)
                && final(self).stack().last().spec_tag() == old(self).stack().last().spec_tag()
                && final(self).stack().last().spec_attributes() == old(self).stack().last().spec_attributes()
                && final(self).stack().last().spec_is_void() == old(self).stack().last().spec_is_void(),
            old(self).stack().len() == 0 ==> final(self).stack() == old(self).stack(),
    {
        let n = self.elements.len();
        if n == 0 {
            return;
        }
        let mut last = self.elements.pop().unwrap();
        let ghost before = last;
        let ghost cn = children_nodes(children);
        match children {
            Children::Empty => {},
            Children::Node(node) => {
                last.children_mut().push(node);
            },
            Children::List(vec) => {
                let mut vec = vec;
                let ghost all = vec@;
                let mut rev: Vec<Node> = Vec::new();
                while vec.len() > 0
                    invariant
                        vec@.len() + rev@.len() == all.len(),
                        forall|j: int| 0 <= j < vec@.len() ==> vec@[j] == all[j],
                        forall|j: int| 0 <= j < rev@.len() ==> #[trigger] rev@[j] == all[all.len() - 1 - j],
                    decreases vec@.len(),
                {
                    let x = vec.pop().unwrap();
                    rev.push(x);
                }
                while rev.len() > 0
                    invariant
                        rev@.len() <= all.len(),
                        forall|j: int| 0 <= j < rev@.len() ==> #[trigger] rev@[j] == all[all.len() - 1 - j],
                        last.spec_children() == before.spec_children() + all.subrange(0, all.len() - rev@.len()),
                        last.spec_tag() == before.spec_tag(),
                        last.spec_attributes() == before.spec_attributes(),
                        last.spec_is_void() == before.spec_is_void(),
                    decreases rev@.len(),
                {
                    let x = rev.pop().unwrap();
                    last.children_mut().push(x);
                    assert(last.spec_children() =~= before.spec_children() + all.subrange(0, all.len() - rev@.len()));
                }
                assert(all.subrange(0, all.len() as int) =~= all);
            },
        }
        assert(last.spec_children() =~= before.spec_children() + cn);
        self.elements.push(last);
        assert(self.elements@.drop_last() =~= old(self).elements@.drop_last());
    }

    /// Adds a text node to the innermost open element.
    pub fn content(&mut self, text: String)
        ensures
            final(self).spec_in_document() == old(self).spec_in_document(),
            final(self).stack().len() == old(self).stack().len(),
            old(self).stack().len() > 0 ==> final(self).stack().drop_last() == old(self).stack().drop_last()
                && final(self).stack().last().spec_children() == old(self).stack().last().spec_children().push(Node::Text(text))
                && final(self).stack().last().spec_tag() == old(self).stack().last().spec_tag()
                && final(self).stack().last().spec_attributes() == old(self).stack().last().spec_attributes()
                && final(self).stack().last().spec_is_void() == old(self).stack().last().spec_is_void(),
            old(self).stack().len() == 0 ==> final(self).stack() == old(self).stack(),
    {
        let ghost t = text;
        self.add_children(Children::Node(Node::Text(text)));
        assert(seq![Node::Text(t)] =~= children_nodes(Children::Node(Node::Text(t))));
    }

    /// Sets an attribute on the innermost open element: a text value sets `name="value"`, `true`
    /// sets the boolean attribute, `false` sets nothing.
    pub fn attr(&mut self, name: String, value: AttrValue)
        requires
            valid_html_name(name@),
        ensures
            final(self).spec_in_document() == old(self).spec_in_document(),
            final(self).stack().len() == old(self).stack().len(),
            old(self).stack().len() > 0 ==> final(self).stack().drop_last() == old(self).stack().drop_last()
                && final(self).stack().last().spec_children() == old(self).stack().last().spec_children()
                && final(self).stack().last().spec_tag() == old(self).stack().last().spec_tag()
                && final(self).stack().last().spec_is_void() == old(self).stack().last().spec_is_void()
                && match value {
                    AttrValue::String(s) => exists|a: Attribute| a.spec_name() == name@ && a.spec_value() == Some(s@)
                        && final(self).stack().last().spec_attributes() == insert_attribute(old(self).stack().last().spec_attributes(), a),
                    AttrValue::Bool(true) => exists|a: Attribute| a.spec_name() == name@ && a.spec_value() is None
                        && final(self).stack().last().spec_attributes() == insert_attribute(old(self).stack().last().spec_attributes(), a),
                    AttrValue::Bool(false) => final(self).stack().last().spec_attributes() == old(self).stack().last().spec_attributes(),
                },
            old(self).stack().len() == 0 ==> final(self).stack() == old(self).stack(),
    {
        let n = self.elements.len();
        if n == 0 {
            return;
        }
        let attr = match value {
            AttrValue::String(s) => Attribute::with_value(name, s),
            AttrValue::Bool(b) => {
                if !b {
                    return;
                }
                Attribute::boolean(name)
            },
        };
        let mut last = self.elements.pop().unwrap();
        last.set_attribute(attr);
        self.elements.push(last);
        assert(self.elements@.drop_last() =~= old(self).elements@.drop_last());
    }

    /// Closes the innermost element: an inner element is added to its parent (unless the parent
    /// is void) and nothing is returned; the outermost element is returned and the document ends.
    pub fn close(&mut self) -> (r: Option<Element>)
        ensures
            old(self).stack().len() > 1 ==> r is None && final(self).stack().len() == old(self).stack().len() - 1
                && final(self).spec_in_document() == old(self).spec_in_document()
                && final(self).stack().drop_last() == old(self).stack().drop_last().drop_last() && {
                    let parent = old(self).stack()[old(self).stack().len() - 2];
                    let child = old(self).stack().last();
                    let np = final(self).stack().last();
                    &&& np.spec_tag() == parent.spec_tag()
                    &&& np.spec_attributes() == parent.spec_attributes()
                    &&& np.spec_is_void() == parent.spec_is_void()
                    &&& np.spec_children() == if parent.spec_is_void() {
                        parent.spec_children()
                    } else {
                        parent.spec_children().push(Node::Element(child))
                    }
                },
            old(self).stack().len() == 1 ==> r == Some(old(self).stack()[0]) && final(self).stack().len() == 0
                && !final(self).spec_in_document(),
            old(self).stack().len() == 0 ==> r is None && final(self).stack() == old(self).stack()
                && final(self).spec_in_document() == old(self).spec_in_document(),
    {
        let n = self.elements.len();
        if n > 1 {
            let el = self.elements.pop().unwrap();
            let mut parent = self.elements.pop().unwrap();
            if !parent.is_void() {
                parent.children_mut().push(Node::Element(el));
            }
            self.elements.push(parent);
            assert(self.elements@.drop_last() =~= old(self).elements@.drop_last().drop_last());
            return None;
        }
        let r = self.elements.pop();
        if r.is_some() {
            self.in_document = false;
        }
        r
    }
}

} // verus!

//! HTML elements: tags with attributes and child nodes, and their text rendering.
use vstd::prelude::*;

use crate::text::{str_to_chars, string_push, push_chars, push_str};

verus! {

/// A name for a tag or attribute: non-empty, starting with an ASCII letter, made of ASCII
/// characters other than whitespace.
pub open spec fn valid_html_name(s: Seq<char>) -> bool {
    &&& s.len() > 0
    &&& (('a' <= s[0] <= 'z') || ('A' <= s[0] <= 'Z'))
    &&& forall|i: int| 0 <= i < s.len() ==> (#[trigger] s[i] as u32) < 0x80 && s[i] != ' '
        && s[i] != '\t' && s[i] != '\n' && s[i] != '\x0C' && s[i] != '\r'
}

/// Decides [`valid_html_name`].
pub fn is_valid_html_name(s: &str) -> (r: bool)
    ensures
        r == valid_html_name(s@),
{
    let cs = str_to_chars(s);
    if cs.len() == 0 {
        return false;
    }
    let f = cs[0];
    if !(('a' <= f && f <= 'z') || ('A' <= f && f <= 'Z')) {
        return false;
    }
    let mut i: usize = 0;
    while i < cs.len()
        invariant
            i <= cs@.len(),
            cs@ == s@,
            forall|j: int| 0 <= j < i ==> (#[trigger] cs@[j] as u32) < 0x80 && cs@[j] != ' '
                && cs@[j] != '\t' && cs@[j] != '\n' && cs@[j] != '\x0C' && cs@[j] != '\r',
        decreases cs@.len() - i,
    {
        let c = cs[i];
        if !((c as u32) < 0x80 && c != ' ' && c != '\t' && c != '\n' && c != '\x0C' && c != '\r') {
            return false;
        }
        i = i + 1;
    }
    true
}

/// A `name="value"` attribute.
#[derive(Debug, PartialEq, Eq, PartialOrd, Ord)]
pub struct NameValueAttr {
    name: String,
    value: String,
}

/// A boolean attribute, present by name only.
#[derive(Debug, PartialEq, Eq, PartialOrd, Ord)]
pub struct BooleanAttr {
    name: String,
}

/// An attribute of an element.
#[derive(Debug, PartialEq, Eq, PartialOrd, Ord)]
pub enum Attribute {
    NameValue(NameValueAttr),
    Boolean(BooleanAttr),
}

impl Attribute {
    /// The name of the attribute.
    pub closed spec fn spec_name(&self) -> Seq<char> {
        match self {
            Attribute::NameValue(a) => a.name@,
            Attribute::Boolean(b) => b.name@,
        }
    }

    /// The value of the attribute, none for a boolean attribute.
    pub closed spec fn spec_value(&self) -> Option<Seq<char>> {
        match self {
            Attribute::NameValue(a) => Some(a.value@),
            Attribute::Boolean(_) => None,
        }
    }

    /// An attribute with a value; the name must be a valid html name.
    pub fn with_value(name: String, value: String) -> (r: Self)
        requires
            valid_html_name(name@),
        ensures
            r.spec_name() == name@,
            r.spec_value() == Some(value@),
    {
        Attribute::NameValue(NameValueAttr { name, value })
    }

    /// A boolean attribute; the name must be a valid html name.
    pub fn boolean(name: String) -> (r: Self)
        requires
            valid_html_name(name@),
        ensures
            r.spec_name() == name@,
            r.spec_value() is None,
    {
        Attribute::Boolean(BooleanAttr { name })
    }

    /// The name of the attribute.
    pub fn name(&self) -> (r: &str)
        ensures
            r@ == self.spec_name(),
    {
        match self {
            Attribute::NameValue(a) => a.name.as_str(),
            Attribute::Boolean(b) => b.name.as_str(),
        }
    }

    /// The value of the attribute, if it has one.
    pub fn value(&self) -> (r: Option<&str>)
        ensures
            match r {
                Some(v) => self.spec_value() == Some(v@),
                None => self.spec_value() is None,
            },
    {
        match self {
            Attribute::NameValue(a) => Some(a.value.as_str()),
            Attribute::Boolean(_) => None,
        }
    }

    /// Whether the attribute is a boolean attribute.
    pub fn is_boolean(&self) -> (r: bool)
        ensures
            r == self.spec_value() is None,
    {
        match self {
            Attribute::NameValue(_) => false,
            Attribute::Boolean(_) => true,
        }
    }
}

/// An html DOM node.
#[derive(Debug, PartialEq, Eq, PartialOrd, Ord)]
pub enum Node {
    Element(Element),
    Text(String),
}

impl Node {
    pub fn is_element(&self) -> (r: bool)
        ensures
            r == self is Element,
    {
        match self {
            Node::Element(_) => true,
            Node::Text(_) => false,
        }
    }

    pub fn is_text(&self) -> (r: bool)
        ensures
            r == self is Text,
    {
        match self {
            Node::Element(_) => false,
            Node::Text(_) => true,
        }
    }

    pub fn as_element(&self) -> (r: Option<&Element>)
        ensures
            match self {
                Node::Element(e) => r == Some(e),
                Node::Text(_) => r is None,
            },
    {
        match self {
            Node::Element(element) => Some(element),
            Node::Text(_) => None,
        }
    }

    pub fn as_text(&self) -> (r: Option<&str>)
        ensures
            match self {
                Node::Element(_) => r is None,
                Node::Text(t) => r matches Some(x) && x@ == t@,
            },
    {
        match self {
            Node::Element(_) => None,
            Node::Text(text) => Some(text.as_str()),
        }
    }

    pub fn into_element(self) -> (r: Option<Element>)
        ensures
            match self {
                Node::Element(e) => r == Some(e),
                Node::Text(_) => r is None,
            },
    {
        match self {
            Node::Element(element) => Some(element),
            Node::Text(_) => None,
        }
    }

    pub fn into_text(self) -> (r: Option<String>)
        ensures
            match self {
                Node::Element(_) => r is None,
                Node::Text(t) => r == Some(t),
            },
    {
        match self {
            Node::Element(_) => None,
            Node::Text(text) => Some(text),
        }
    }
}

/// An DOM element, eg: `<html>`, `<body>`, `<div>`, etc.
#[derive(Debug, PartialEq, Eq, PartialOrd, Ord)]
pub struct Element {
    tag: String,
    attributes: Vec<Attribute>,
    children: Vec<Node>,
    is_void: bool,
}

/// An html element or empty.
#[derive(Debug, PartialEq, Eq, PartialOrd, Ord)]
pub enum HTMLElement {
    Element(Element),
    Empty,
}

impl HTMLElement {
    pub fn into_element(self) -> (r: Option<Element>)
        ensures
            match self {
                HTMLElement::Element(e) => r == Some(e),
                HTMLElement::Empty => r is None,
            },
    {
        match self {
            HTMLElement::Element(element) => Some(element),
            HTMLElement::Empty => None,
        }
    }
}

/// The escaped form of one character.
pub open spec fn escape_char(c: char) -> Seq<char> {
    if c == '&' {
        seq!['&', 'a', 'm', 'p', ';']
    } else if c == '<' {
        seq!['&', 'l', 't', ';']
    } else if c == '>' {
        seq!['&', 'g', 't', ';']
    } else if c == '"' {
        seq!['&', 'q', 'u', 'o', 't', ';']
    } else if c == '\'' {
        seq!['&', 'a', 'p', 'o', 's', ';']
    } else {
        seq![c]
    }
}

/// Text with `& < > " '` replaced by their character references.
pub open spec fn escape_html(cs: Seq<char>) -> Seq<char>
    decreases cs.len(),
{
    if cs.len() == 0 {
        Seq::empty()
    } else {
        escape_html(cs.drop_last()) + escape_char(cs.last())
    }
}


/// Appends the escaped form of a text.
fn push_escaped(out: &mut String, s: &str)
    ensures
        final(out)@ == old(out)@ + escape_html(s@),
{
    let cs = str_to_chars(s);
    let mut i: usize = 0;
    while i < cs.len()
        invariant
            i <= cs@.len(),
            cs@ == s@,
            out@ == old(out)@ + escape_html(cs@.take(i as int)),
        decreases cs@.len() - i,
    {
        let c = cs[i];
        let ghost before = out@;
        if c == '&' {
            push_chars(out, &['&', 'a', 'm', 'p', ';']);
        } else if c == '<' {
            push_chars(out, &['&', 'l', 't', ';']);
        } else if c == '>' {
            push_chars(out, &['&', 'g', 't', ';']);
        } else if c == '"' {
            push_chars(out, &['&', 'q', 'u', 'o', 't', ';']);
        } else if c == '\'' {
            push_chars(out, &['&', 'a', 'p', 'o', 's', ';']);
        } else {
            string_push(out, c);
        }
        proof {
            assert(cs@.take(i + 1).drop_last() =~= cs@.take(i as int));
            assert(out@ =~= before + escape_char(c));
        }
        i = i + 1;
    }
    assert(cs@.take(cs@.len() as int) =~= cs@);
}

/// `level` copies of the indentation text.
pub open spec fn indentation(ind: Seq<char>, level: nat) -> Seq<char>
    decreases level,
{
    if level == 0 {
        Seq::empty()
    } else {
        indentation(ind, (level - 1) as nat) + ind
    }
}

/// The rendering of attributes: ` name="value"` or ` name`, names and values escaped.
pub open spec fn render_attributes(attrs: Seq<Attribute>) -> Seq<char>
    decreases attrs.len(),
{
    if attrs.len() == 0 {
        Seq::empty()
    } else {
        let a = attrs.last();
        render_attributes(attrs.drop_last()) + match a.spec_value() {
            Some(v) => seq![' '] + escape_html(a.spec_name()) + seq!['=', '"'] + escape_html(v) + seq!['"'],
            None => seq![' '] + escape_html(a.spec_name()),
        }
    }
}

impl Element {
    pub closed spec fn spec_tag(&self) -> Seq<char> {
        self.tag@
    }

    pub closed spec fn spec_attributes(&self) -> Seq<Attribute> {
        self.attributes@
    }

    pub closed spec fn spec_children(&self) -> Seq<Node> {
        self.children@
    }

    pub closed spec fn spec_is_void(&self) -> bool {
        self.is_void
    }

    /// The rendering of an element at an indentation level: the opening tag on its own indented
    /// line start; a void element ends with ` />`; otherwise text children follow inline and each
    /// child element starts on a new line, and the closing tag is indented when the last child is
    /// an element.
    pub open spec fn render(&self, ind: Seq<char>, level: nat) -> Seq<char>
        decreases self, 1nat, 0nat,
    {
        let open = indentation(ind, level) + seq!['<'] + self.spec_tag() + render_attributes(self.spec_attributes());
        if self.spec_is_void() {
            open + seq![' ', '/', '>', '\n']
        } else {
            let n = self.spec_children().len();
            let closing_indent = if n > 0 && self.spec_children()[n - 1] is Element {
                indentation(ind, level)
            } else {
                Seq::empty()
            };
            open + seq!['>'] + self.render_children(ind, level, n as nat) + closing_indent + seq!['<', '/']
                + self.spec_tag() + seq!['>', '\n']
        }
    }

    /// The rendering of the first `k` children.
    pub open spec fn render_children(&self, ind: Seq<char>, level: nat, k: nat) -> Seq<char>
        decreases self, 0nat, k,
    {
        if k == 0 || k > self.spec_children().len() {
            Seq::empty()
        } else {
            let prev = self.render_children(ind, level, (k - 1) as nat);
            match self.spec_children()[k - 1] {
                Node::Text(t) => prev + escape_html(t@),
                Node::Element(e) => {
                    let sep = if k >= 2 && self.spec_children()[k - 2] is Element {
                        Seq::empty()
                    } else {
                        seq!['\n']
                    };
                    prev + sep + e.render(ind, level + 1)
                },
            }
        }
    }
}


fn push_attributes(out: &mut String, attrs: &Vec<Attribute>)
    ensures
        final(out)@ == old(out)@ + render_attributes(attrs@),
{
    let mut i: usize = 0;
    while i < attrs.len()
        invariant
            i <= attrs@.len(),
            out@ == old(out)@ + render_attributes(attrs@.take(i as int)),
        decreases attrs@.len() - i,
    {
        let ghost before = out@;
        let a = &attrs[i];
        string_push(out, ' ');
        match a {
            Attribute::NameValue(nv) => {
                push_escaped(out, nv.name.as_str());
                string_push(out, '=');
                string_push(out, '"');
                push_escaped(out, nv.value.as_str());
                string_push(out, '"');
            },
            Attribute::Boolean(b) => {
                push_escaped(out, b.name.as_str());
            },
        }
        proof {
            assert(attrs@.take(i + 1).drop_last() =~= attrs@.take(i as int));
            assert(attrs@.take(i + 1).last() == attrs@[i as int]);
            match a.spec_value() {
                Some(v) => {
                    assert(out@ =~= before + (seq![' '] + escape_html(a.spec_name()) + seq!['=', '"'] + escape_html(v) + seq!['"']));
                },
                None => {
                    assert(out@ =~= before + (seq![' '] + escape_html(a.spec_name())));
                },
            }
        }
        i = i + 1;
    }
    assert(attrs@.take(attrs@.len() as int) =~= attrs@);
}

fn write_element(el: &Element, out: &mut String, ind: &str, prefix: &str, Ghost(level): Ghost<nat>)
    requires
        prefix@ == indentation(ind@, level),
    ensures
        final(out)@ == old(out)@ + el.render(ind@, level),
    decreases el,
{
    push_str(out, prefix);
    string_push(out, '<');
    push_str(out, el.tag.as_str());
    push_attributes(out, &el.attributes);
    let ghost open = indentation(ind@, level) + seq!['<'] + el.spec_tag() + render_attributes(el.spec_attributes());
    assert(out@ =~= old(out)@ + open);
    if el.is_void {
        push_chars(out, &[' ', '/', '>', '\n']);
        assert(out@ =~= old(out)@ + el.render(ind@, level));
        return;
    }
    string_push(out, '>');
    let ghost start = out@;
    let mut child_prefix = String::new();
    push_str(&mut child_prefix, prefix);
    push_str(&mut child_prefix, ind);
    assert(child_prefix@ =~= indentation(ind@, level + 1));
    let n = el.children.len();
    let mut k: usize = 0;
    let mut prev_is_element = false;
    while k < n
        invariant
            n == el.children@.len(),
            k <= n,
            child_prefix@ == indentation(ind@, level + 1),
            out@ == start + el.render_children(ind@, level, k as nat),
            prev_is_element == (k >= 1 && el.children@[k - 1] is Element),
        decreases n - k,
    {
        match &el.children[k] {
            Node::Text(t) => {
                push_escaped(out, t.as_str());
                prev_is_element = false;
            },
            Node::Element(e) => {
                if !prev_is_element {
                    string_push(out, '\n');
                }
                write_element(e, out, ind, child_prefix.as_str(), Ghost(level + 1));
                prev_is_element = true;
            },
        }
        k = k + 1;
        assert(out@ =~= start + el.render_children(ind@, level, k as nat));
    }
    if n > 0 && prev_is_element {
        push_str(out, prefix);
    }
    string_push(out, '<');
    string_push(out, '/');
    push_str(out, el.tag.as_str());
    string_push(out, '>');
    string_push(out, '\n');
    assert(out@ =~= old(out)@ + el.render(ind@, level));
}


/// Lexicographic order of texts by code point, as `String` orders them.
pub open spec fn text_less(a: Seq<char>, b: Seq<char>) -> bool
    decreases a.len(),
{
    if a.len() == 0 {
        b.len() > 0
    } else if b.len() == 0 {
        false
    } else if a[0] != b[0] {
        a[0] < b[0]
    } else {
        text_less(a.drop_first(), b.drop_first())
    }
}

fn text_less_exec(a: &str, b: &str) -> (r: bool)
    ensures
        r == text_less(a@, b@),
{
    let ac = str_to_chars(a);
    let bc = str_to_chars(b);
    let mut i: usize = 0;
    assert(ac@.subrange(0, ac@.len() as int) =~= ac@);
    assert(bc@.subrange(0, bc@.len() as int) =~= bc@);
    loop
        invariant
            ac@ == a@,
            bc@ == b@,
            i <= ac@.len(),
            i <= bc@.len(),
            text_less(a@, b@) == text_less(ac@.subrange(i as int, ac@.len() as int), bc@.subrange(i as int, bc@.len() as int)),
        decreases ac@.len() - i,
    {
        let ghost x = ac@.subrange(i as int, ac@.len() as int);
        let ghost y = bc@.subrange(i as int, bc@.len() as int);
        if i == ac.len() {
            return i < bc.len();
        }
        if i == bc.len() {
            return false;
        }
        if ac[i] != bc[i] {
            assert(x[0] == ac@[i as int] && y[0] == bc@[i as int]);
            return ac[i] < bc[i];
        }
        assert(x.drop_first() =~= ac@.subrange(i + 1, ac@.len() as int));
        assert(y.drop_first() =~= bc@.subrange(i + 1, bc@.len() as int));
        i = i + 1;
    }
}

/// The attributes after setting `a`: an attribute of the same name is replaced in place, else
/// `a` goes before the first attribute whose name is greater, or last.
pub open spec fn insert_attribute(attrs: Seq<Attribute>, a: Attribute) -> Seq<Attribute>
    decreases attrs.len(),
{
    if attrs.len() == 0 {
        seq![a]
    } else if attrs[0].spec_name() == a.spec_name() {
        attrs.update(0, a)
    } else if text_less(a.spec_name(), attrs[0].spec_name()) {
        seq![a] + attrs
    } else {
        seq![attrs[0]] + insert_attribute(attrs.drop_first(), a)
    }
}

/// Whether attribute names strictly increase.
pub open spec fn attributes_sorted(attrs: Seq<Attribute>) -> bool {
    forall|i: int, j: int| 0 <= i < j < attrs.len() ==> text_less(#[trigger] attrs[i].spec_name(), #[trigger] attrs[j].spec_name())
}

fn insert_attribute_exec(attrs: Vec<Attribute>, a: Attribute) -> (r: Vec<Attribute>)
    ensures
        r@ == insert_attribute(attrs@, a),
{
    let ghost all = attrs@;
    let mut attrs = attrs;
    let mut rev: Vec<Attribute> = Vec::new();
    while attrs.len() > 0
        invariant
            attrs@.len() + rev@.len() == all.len(),
            forall|j: int| 0 <= j < attrs@.len() ==> attrs@[j] == all[j],
            forall|j: int| 0 <= j < rev@.len() ==> #[trigger] rev@[j] == all[all.len() - 1 - j],
        decreases attrs@.len(),
    {
        let x = attrs.pop().unwrap();
        rev.push(x);
    }
    let mut prefix: Vec<Attribute> = Vec::new();
    let mut pending: Option<Attribute> = Some(a);
    assert(rev@.len() == all.len());
    assert(all.subrange(0, all.len() as int) =~= all);
    assert(prefix@ + insert_attribute(all, a) =~= insert_attribute(all, a));
    while rev.len() > 0
        invariant
            forall|j: int| 0 <= j < rev@.len() ==> #[trigger] rev@[j] == all[all.len() - 1 - j],
            rev@.len() <= all.len(),
            pending is Some ==> pending == Some(a) && prefix@ + insert_attribute(all.subrange(all.len() - rev@.len(), all.len() as int), a) == insert_attribute(all, a),
            pending is None ==> prefix@ + all.subrange(all.len() - rev@.len(), all.len() as int) == insert_attribute(all, a),
        decreases rev@.len(),
    {
        let ghost rest = all.subrange(all.len() - rev@.len(), all.len() as int);
        let x = rev.pop().unwrap();
        assert(rest[0] == x);
        assert(rest.drop_first() =~= all.subrange(all.len() - rev@.len(), all.len() as int));
        match pending {
            Some(p) => {
                if str_eq_names(x.name(), p.name()) {
                    prefix.push(p);
                    pending = None;
                    assert(rest.update(0, a) =~= seq![a] + rest.drop_first());
                    assert(prefix@ + all.subrange(all.len() - rev@.len(), all.len() as int) =~= prefix@.drop_last() + insert_attribute(rest, a));
                } else if text_less_exec(p.name(), x.name()) {
                    prefix.push(p);
                    prefix.push(x);
                    pending = None;
                    assert(prefix@ + all.subrange(all.len() - rev@.len(), all.len() as int) =~= prefix@.drop_last().drop_last() + insert_attribute(rest, a));
                } else {
                    prefix.push(x);
                    pending = Some(p);
                    assert(prefix@ + insert_attribute(all.subrange(all.len() - rev@.len(), all.len() as int), a) =~= prefix@.drop_last() + insert_attribute(rest, a));
                }
            },
            None => {
                prefix.push(x);
                assert(prefix@ + all.subrange(all.len() - rev@.len(), all.len() as int) =~= prefix@.drop_last() + rest);
            },
        }
    }
    match pending {
        Some(p) => {
            prefix.push(p);
            assert(all.subrange(all.len() as int, all.len() as int) =~= Seq::<Attribute>::empty());
            assert(prefix@ =~= prefix@.drop_last() + insert_attribute(Seq::<Attribute>::empty(), a));
        },
        None => {
            assert(all.subrange(all.len() as int, all.len() as int) =~= Seq::<Attribute>::empty());
            assert(prefix@ + Seq::<Attribute>::empty() =~= prefix@);
        },
    }
    prefix
}

fn str_eq_names(a: &str, b: &str) -> (r: bool)
    ensures
        r == (a@ == b@),
{
    crate::text::str_eq(a, b)
}

/// Builds an [`Element`].
pub struct Builder {
    tag: String,
    attributes: Vec<Attribute>,
    children: Vec<Node>,
    is_void: bool,
}

impl Builder {
    pub closed spec fn spec_tag(&self) -> Seq<char> {
        self.tag@
    }

    pub closed spec fn spec_attributes(&self) -> Seq<Attribute> {
        self.attributes@
    }

    pub closed spec fn spec_children(&self) -> Seq<Node> {
        self.children@
    }

    pub closed spec fn spec_is_void(&self) -> bool {
        self.is_void
    }

    /// Starts an element with the given tag, which must be a valid html name.
    pub fn new(tag: String) -> (r: Self)
        requires
            valid_html_name(tag@),
        ensures
            r.spec_tag() == tag@,
            r.spec_attributes() == Seq::<Attribute>::empty(),
            r.spec_children() == Seq::<Node>::empty(),
            !r.spec_is_void(),
    {
        Builder { tag, attributes: Vec::new(), children: Vec::new(), is_void: false }
    }

    /// Sets whether the element is void (self-closing).
    pub fn is_void(self, is_void: bool) -> (r: Self)
        ensures
            r.spec_tag() == self.spec_tag(),
            r.spec_attributes() == self.spec_attributes(),
            r.spec_children() == self.spec_children(),
            r.spec_is_void() == is_void,
    {
        let mut b = self;
        b.is_void = is_void;
        b
    }

    /// Sets an attribute, replacing one of the same name; attributes stay ordered by name.
    pub fn attribute(self, attr: Attribute) -> (r: Self)
        ensures
            r.spec_tag() == self.spec_tag(),
            r.spec_attributes() == insert_attribute(self.spec_attributes(), attr),
            r.spec_children() == self.spec_children(),
            r.spec_is_void() == self.spec_is_void(),
    {
        let Builder { tag, attributes, children, is_void } = self;
        let attributes = insert_attribute_exec(attributes, attr);
        Builder { tag, attributes, children, is_void }
    }

    /// Adds a child node last.
    pub fn child(self, child: Node) -> (r: Self)
        ensures
            r.spec_tag() == self.spec_tag(),
            r.spec_attributes() == self.spec_attributes(),
            r.spec_children() == self.spec_children().push(child),
            r.spec_is_void() == self.spec_is_void(),
    {
        let mut b = self;
        b.children.push(child);
        b
    }

    /// The element.
    pub fn build(self) -> (r: Element)
        ensures
            r.spec_tag() == self.spec_tag(),
            r.spec_attributes() == self.spec_attributes(),
            r.spec_children() == self.spec_children(),
            r.spec_is_void() == self.spec_is_void(),
    {
        Element { tag: self.tag, attributes: self.attributes, children: self.children, is_void: self.is_void }
    }
}

impl Element {
    /// An element with the given tag and nothing else.
    pub fn new(tag: String) -> (r: Self)
        requires
            valid_html_name(tag@),
        ensures
            r.spec_tag() == tag@,
            r.spec_attributes() == Seq::<Attribute>::empty(),
            r.spec_children() == Seq::<Node>::empty(),
            !r.spec_is_void(),
    {
        Self::builder(tag).build()
    }

    /// Starts building an element.
    pub fn builder(tag: String) -> (r: Builder)
        requires
            valid_html_name(tag@),
        ensures
            r.spec_tag() == tag@,
            r.spec_attributes() == Seq::<Attribute>::empty(),
            r.spec_children() == Seq::<Node>::empty(),
            !r.spec_is_void(),
    {
        Builder::new(tag)
    }

    pub fn tag(&self) -> (r: &String)
        ensures
            r@ == self.spec_tag(),
    {
        &self.tag
    }

    pub fn is_void(&self) -> (r: bool)
        ensures
            r == self.spec_is_void(),
    {
        self.is_void
    }

    pub fn attributes(&self) -> (r: &Vec<Attribute>)
        ensures
            r@ == self.spec_attributes(),
    {
        &self.attributes
    }

    pub fn children(&self) -> (r: &Vec<Node>)
        ensures
            r@ == self.spec_children(),
    {
        &self.children
    }

    pub fn attributes_mut(&mut self) -> (r: &mut Vec<Attribute>)
        ensures
            r@ == old(self).spec_attributes(),
            final(self).spec_attributes() == final(r)@,
            final(self).spec_tag() == old(self).spec_tag(),
            final(self).spec_children() == old(self).spec_children(),
            final(self).spec_is_void() == old(self).spec_is_void(),
    {
        &mut self.attributes
    }

    pub fn children_mut(&mut self) -> (r: &mut Vec<Node>)
        ensures
            r@ == old(self).spec_children(),
            final(self).spec_children() == final(r)@,
            final(self).spec_tag() == old(self).spec_tag(),
            final(self).spec_attributes() == old(self).spec_attributes(),
            final(self).spec_is_void() == old(self).spec_is_void(),
    {
        &mut self.children
    }

    /// Sets an attribute, replacing one of the same name.
    pub fn set_attribute(&mut self, attr: Attribute)
        ensures
            final(self).spec_attributes() == insert_attribute(old(self).spec_attributes(), attr),
            final(self).spec_tag() == old(self).spec_tag(),
            final(self).spec_children() == old(self).spec_children(),
            final(self).spec_is_void() == old(self).spec_is_void(),
    {
        let mut attrs: Vec<Attribute> = Vec::new();
        std::mem::swap(&mut attrs, &mut self.attributes);
        self.attributes = insert_attribute_exec(attrs, attr);
    }

    /// The element rendered without indentation.
    pub fn to_plain_string(&self) -> (r: String)
        ensures
            r@ == self.render(Seq::empty(), 0),
    {
        let mut buf = String::new();
        proof {
            reveal_strlit("");
            assert(""@ =~= Seq::<char>::empty());
        }
        let empty = String::new();
        write_element(self, &mut buf, "", empty.as_str(), Ghost(0));
        assert(buf@ =~= self.render(Seq::empty(), 0));
        buf
    }

    /// The element rendered with two spaces of indentation per level.
    pub fn to_string(&self) -> (r: String)
        ensures
            r@ == self.render(seq![' ', ' '], 0),
    {
        let mut buf = String::new();
        proof {
            reveal_strlit("  ");
            assert("  "@ =~= seq![' ', ' ']);
        }
        let empty = String::new();
        write_element(self, &mut buf, "  ", empty.as_str(), Ghost(0));
        assert(buf@ =~= self.render(seq![' ', ' '], 0));
        buf
    }
}

/// Setting an attribute keeps the attributes ordered by name.
pub proof fn law_insert_attribute_sorted(attrs: Seq<Attribute>, a: Attribute)
    requires
        attributes_sorted(attrs),
    ensures
        attributes_sorted(insert_attribute(attrs, a)),
    decreases attrs.len(),
{
    assert forall|x: Seq<char>, y: Seq<char>, z: Seq<char>| text_less(x, y) && text_less(y, z) implies text_less(x, z) by {
        lemma_text_less_transitive(x, y, z);
    };
    assert forall|x: Seq<char>, y: Seq<char>| x != y implies text_less(x, y) || text_less(y, x) by {
        lemma_text_less_total(x, y);
    };
    if attrs.len() == 0 {
    } else if attrs[0].spec_name() == a.spec_name() {
        let r = insert_attribute(attrs, a);
        assert forall|i: int, j: int| 0 <= i < j < r.len() implies text_less(#[trigger] r[i].spec_name(), #[trigger] r[j].spec_name()) by {
            assert(r[i].spec_name() == attrs[i].spec_name());
            assert(r[j].spec_name() == attrs[j].spec_name());
        };
    } else if text_less(a.spec_name(), attrs[0].spec_name()) {
        let r = insert_attribute(attrs, a);
        assert forall|i: int, j: int| 0 <= i < j < r.len() implies text_less(#[trigger] r[i].spec_name(), #[trigger] r[j].spec_name()) by {
            if i == 0 {
                if j > 1 {
                    assert(text_less(attrs[0].spec_name(), attrs[j - 1].spec_name()));
                }
            } else {
                assert(r[i] == attrs[i - 1]);
                assert(r[j] == attrs[j - 1]);
            }
        };
    } else {
        let tail = attrs.drop_first();
        assert(attributes_sorted(tail)) by {
            assert forall|i: int, j: int| 0 <= i < j < tail.len() implies text_less(#[trigger] tail[i].spec_name(), #[trigger] tail[j].spec_name()) by {
                assert(tail[i] == attrs[i + 1]);
                assert(tail[j] == attrs[j + 1]);
            };
        };
        law_insert_attribute_sorted(tail, a);
        let it = insert_attribute(tail, a);
        let r = insert_attribute(attrs, a);
        assert(text_less(attrs[0].spec_name(), a.spec_name()));
        assert forall|k: int| 0 <= k < it.len() implies text_less(attrs[0].spec_name(), #[trigger] it[k].spec_name()) by {
            lemma_insert_attribute_member(tail, a, k);
            if it[k] != a {
                let m = choose|m: int| 0 <= m < tail.len() && tail[m] == it[k];
                assert(tail[m] == attrs[m + 1]);
                assert(text_less(attrs[0].spec_name(), attrs[m + 1].spec_name()));
            }
        };
        assert forall|i: int, j: int| 0 <= i < j < r.len() implies text_less(#[trigger] r[i].spec_name(), #[trigger] r[j].spec_name()) by {
            if i == 0 {
                assert(r[j] == it[j - 1]);
            } else {
                assert(r[i] == it[i - 1]);
                assert(r[j] == it[j - 1]);
            }
        };
    }
}

proof fn lemma_text_less_transitive(x: Seq<char>, y: Seq<char>, z: Seq<char>)
    requires
        text_less(x, y),
        text_less(y, z),
    ensures
        text_less(x, z),
    decreases x.len(),
{
    if x.len() > 0 && y.len() > 0 && z.len() > 0 && x[0] == y[0] && y[0] == z[0] {
        lemma_text_less_transitive(x.drop_first(), y.drop_first(), z.drop_first());
    }
}

proof fn lemma_text_less_total(x: Seq<char>, y: Seq<char>)
    requires
        x != y,
    ensures
        text_less(x, y) || text_less(y, x),
    decreases x.len(),
{
    if x.len() == 0 && y.len() == 0 {
        assert(x =~= y);
    }

    if x.len() > 0 && y.len() > 0 && x[0] == y[0] {
        if x.drop_first() == y.drop_first() {
            assert(x =~= seq![x[0]] + x.drop_first());
            assert(y =~= seq![y[0]] + y.drop_first());
        }
        lemma_text_less_total(x.drop_first(), y.drop_first());
    }
}

proof fn lemma_insert_attribute_member(attrs: Seq<Attribute>, a: Attribute, k: int)
    requires
        0 <= k < insert_attribute(attrs, a).len(),
    ensures
        insert_attribute(attrs, a)[k] == a || exists|m: int| 0 <= m < attrs.len() && attrs[m] == insert_attribute(attrs, a)[k],
    decreases attrs.len(),
{
    let r = insert_attribute(attrs, a);
    if attrs.len() == 0 {
    } else if attrs[0].spec_name() == a.spec_name() {
        if k != 0 {
            assert(attrs[k] == r[k]);
        }
    } else if text_less(a.spec_name(), attrs[0].spec_name()) {
        if k != 0 {
            assert(attrs[k - 1] == r[k]);
        }
    } else {
        if k == 0 {
            assert(attrs[0] == r[0]);
        } else {
            let tail = attrs.drop_first();
            lemma_insert_attribute_member(tail, a, k - 1);
            if insert_attribute(tail, a)[k - 1] != a {
                let m = choose|m: int| 0 <= m < tail.len() && tail[m] == insert_attribute(tail, a)[k - 1];
                assert(attrs[m + 1] == r[k]);
            }
        }
    }
}

/// Whether `s` starts with `p`.
pub open spec fn text_starts_with(s: Seq<char>, p: Seq<char>) -> bool {
    s.len() >= p.len() && s.subrange(0, p.len() as int) == p
}

/// Reading character references back: `&amp;`, `&lt;`, `&gt;`, `&quot;` and `&apos;` stand for
/// `&`, `<`, `>`, `"` and `'`; every other character stands for itself.
pub open spec fn html_unescape(s: Seq<char>) -> Seq<char>
    decreases s.len(),
{
    if s.len() == 0 {
        Seq::empty()
    } else if text_starts_with(s, seq!['&','a','m','p',';']) {
        seq!['&'] + html_unescape(s.subrange(5, s.len() as int))
    } else if text_starts_with(s, seq!['&','l','t',';']) {
        seq!['<'] + html_unescape(s.subrange(4, s.len() as int))
    } else if text_starts_with(s, seq!['&','g','t',';']) {
        seq!['>'] + html_unescape(s.subrange(4, s.len() as int))
    } else if text_starts_with(s, seq!['&','q','u','o','t',';']) {
        seq!['"'] + html_unescape(s.subrange(6, s.len() as int))
    } else if text_starts_with(s, seq!['&','a','p','o','s',';']) {
        seq!['\''] + html_unescape(s.subrange(6, s.len() as int))
    } else {
        seq![s[0]] + html_unescape(s.subrange(1, s.len() as int))
    }
}

proof fn lemma_escape_html_concat(a: Seq<char>, b: Seq<char>)
    ensures
        escape_html(a + b) == escape_html(a) + escape_html(b),
    decreases b.len(),
{
    if b.len() == 0 {
        assert(a + b =~= a);
        assert(escape_html(a) + Seq::<char>::empty() =~= escape_html(a));
    } else {
        lemma_escape_html_concat(a, b.drop_last());
        assert((a + b).drop_last() =~= a + b.drop_last());
        assert((a + b).last() == b.last());
        assert(escape_html(a) + escape_html(b.drop_last()) + escape_char(b.last()) =~= escape_html(a) + (
        escape_html(b.drop_last()) + escape_char(b.last())));
    }
}

proof fn lemma_unescape_char(c: char, rest: Seq<char>)
    ensures
        html_unescape(escape_char(c) + rest) == seq![c] + html_unescape(rest),
{
    let e = escape_char(c);
    let s = e + rest;
    let k = e.len() as int;
    assert(s.subrange(k, s.len() as int) =~= rest);
    assert(s.subrange(0, k) =~= e);
    assert(s[0] == e[0]);
    if k >= 2 {
        assert(s[1] == e[1]);
    }
    if k >= 5 {
        assert(s[4] == e[4]);
    }
    if c == '&' {
    } else if c == '<' {
        assert(s[1] != seq!['&','a','m','p',';'][1]);
    } else if c == '>' {
        assert(s[1] != seq!['&','a','m','p',';'][1]);
        assert(s[1] != seq!['&','l','t',';'][1]);
    } else if c == '"' {
        assert(s[1] != seq!['&','a','m','p',';'][1]);
        assert(s[1] != seq!['&','l','t',';'][1]);
        assert(s[1] != seq!['&','g','t',';'][1]);
    } else if c == '\'' {
        assert(s[2] == e[2]);
        assert(s[2] != seq!['&','a','m','p',';'][2]);
        assert(s[1] != seq!['&','l','t',';'][1]);
        assert(s[1] != seq!['&','g','t',';'][1]);
        assert(s[4] != seq!['&','q','u','o','t',';'][4]);
    } else {
        assert(s[0] == c);
    }
}

/// Escaping is undone by reading the character references back: for every text `s`,
/// `html_unescape(escape_html(s)) == s`, so each escape denotes the very character it replaced.
pub proof fn law_unescape_undoes_escape(s: Seq<char>)
    ensures
        html_unescape(escape_html(s)) == s,
    decreases s.len(),
{
    if s.len() > 0 {
        let c = s[0];
        let rest = s.drop_first();
        assert(s =~= seq![c] + rest);
        lemma_escape_html_concat(seq![c], rest);
        assert(seq![c].drop_last() =~= Seq::<char>::empty());
        assert(seq![c].last() == c);
        assert(escape_html(Seq::<char>::empty()) == Seq::<char>::empty());
        assert(escape_html(seq![c]) =~= escape_char(c));
        law_unescape_undoes_escape(rest);
        lemma_unescape_char(c, escape_html(rest));
    } else {
        assert(escape_html(s) =~= Seq::<char>::empty());
    }
}

} // verus!

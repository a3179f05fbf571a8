//! The document tree.
//!
//! Nodes live in an arena owned by a [`Window`]; a node is named by its index.
//! Index 0 is the document itself. A parent owns the ordered list of its
//! children; the `parent` and `next_sibling` links only name other nodes.
//! The arena only grows: a node is created as the last child of a node that
//! already exists, so a parent always has a smaller index than its children.

use vstd::prelude::*;
use crate::text::same_text;

verus! {

/// The element kinds that the tree constructor recognises.
#[derive(Clone, Copy, Debug, PartialEq, Eq, Structural)]
pub enum ElementKind {
    Html,
    Head,
    Style,
    Script,
    Body,
    P,
    H1,
    H2,
    A,
}

/// The answer of [`ElementKind::from_name`] for a tag name that is not modelled.
#[derive(Debug)]
pub struct UnknownTag {
    pub name: String,
}

impl ElementKind {
    /// The element kind that a lower-case tag name stands for, if any.
    pub open spec fn spec_from_name(name: Seq<char>) -> Option<ElementKind> {
        if name == "html"@ {
            Some(ElementKind::Html)
        } else if name == "head"@ {
            Some(ElementKind::Head)
        } else if name == "style"@ {
            Some(ElementKind::Style)
        } else if name == "script"@ {
            Some(ElementKind::Script)
        } else if name == "body"@ {
            Some(ElementKind::Body)
        } else if name == "p"@ {
            Some(ElementKind::P)
        } else if name == "h1"@ {
            Some(ElementKind::H1)
        } else if name == "h2"@ {
            Some(ElementKind::H2)
        } else if name == "a"@ {
            Some(ElementKind::A)
        } else {
            None
        }
    }

    /// Maps a lower-case tag name to its element kind. A name that is not
    /// modelled comes back inside `UnknownTag`; callers use that as a signal.
    pub fn from_name(name: &str) -> (r: Result<ElementKind, UnknownTag>)
        ensures
            match Self::spec_from_name(name@) {
                Some(k) => r == Ok::<ElementKind, UnknownTag>(k),
                None => r matches Err(e) && e.name@ == name@,
            },
    {
        if same_text(name, "html") {
            Ok(ElementKind::Html)
        } else if same_text(name, "head") {
            Ok(ElementKind::Head)
        } else if same_text(name, "style") {
            Ok(ElementKind::Style)
        } else if same_text(name, "script") {
            Ok(ElementKind::Script)
        } else if same_text(name, "body") {
            Ok(ElementKind::Body)
        } else if same_text(name, "p") {
            Ok(ElementKind::P)
        } else if same_text(name, "h1") {
            Ok(ElementKind::H1)
        } else if same_text(name, "h2") {
            Ok(ElementKind::H2)
        } else if same_text(name, "a") {
            Ok(ElementKind::A)
        } else {
            Err(UnknownTag { name: name.to_owned() })
        }
    }

    /// The tag name of an element kind.
    pub open spec fn spec_name(self) -> Seq<char> {
        match self {
            ElementKind::Html => "html"@,
            ElementKind::Head => "head"@,
            ElementKind::Style => "style"@,
            ElementKind::Script => "script"@,
            ElementKind::Body => "body"@,
            ElementKind::P => "p"@,
            ElementKind::H1 => "h1"@,
            ElementKind::H2 => "h2"@,
            ElementKind::A => "a"@,
        }
    }

    pub fn name(&self) -> (r: &'static str)
        ensures
            r@ == self.spec_name(),
    {
        match self {
            ElementKind::Html => "html",
            ElementKind::Head => "head",
            ElementKind::Style => "style",
            ElementKind::Script => "script",
            ElementKind::Body => "body",
            ElementKind::P => "p",
            ElementKind::H1 => "h1",
            ElementKind::H2 => "h2",
            ElementKind::A => "a",
        }
    }

    /// A name stands for an element kind exactly if it is the tag name of
    /// that kind: the nine names are distinct, and each is found again under
    /// its own kind.
    pub proof fn lemma_from_name(name: Seq<char>, kind: ElementKind)
        ensures
            Self::spec_from_name(name) == Some(kind) <==> name == kind.spec_name(),
    {
        reveal_strlit("html");
        reveal_strlit("head");
        reveal_strlit("style");
        reveal_strlit("script");
        reveal_strlit("body");
        reveal_strlit("p");
        reveal_strlit("h1");
        reveal_strlit("h2");
        reveal_strlit("a");
        assert("html"@.len() == 4 && "html"@[1] == 't');
        assert("head"@.len() == 4 && "head"@[1] == 'e');
        assert("body"@.len() == 4 && "body"@[0] == 'b');
        assert("style"@.len() == 5);
        assert("script"@.len() == 6);
        assert("p"@.len() == 1 && "p"@[0] == 'p');
        assert("a"@.len() == 1 && "a"@[0] == 'a');
        assert("h1"@.len() == 2 && "h1"@[1] == '1');
        assert("h2"@.len() == 2 && "h2"@[1] == '2');
        assert("head"@[0] == 'h');
    }
}

/// What an attribute stands for: a name and a value, both plain text.
pub struct AttributeView {
    pub name: Seq<char>,
    pub value: Seq<char>,
}

/// One `name="value"` pair of a start tag.
#[derive(Debug, PartialEq, Eq)]
pub struct Attribute {
    name: String,
    value: String,
}

impl View for Attribute {
    type V = AttributeView;

    closed spec fn view(&self) -> AttributeView {
        AttributeView { name: self.name@, value: self.value@ }
    }
}

impl Clone for Attribute {
    fn clone(&self) -> (r: Self)
        ensures
            r@ == self@,
    {
        Attribute { name: self.name.clone(), value: self.value.clone() }
    }
}

impl Attribute {
    /// An attribute with an empty name and an empty value.
    pub fn new() -> (r: Self)
        ensures
            r@ == (AttributeView { name: Seq::empty(), value: Seq::empty() }),
    {
        Attribute { name: String::new(), value: String::new() }
    }

    /// An attribute with the given name and value.
    pub fn with(name: &str, value: &str) -> (r: Self)
        ensures
            r@ == (AttributeView { name: name@, value: value@ }),
    {
        Attribute { name: name.to_owned(), value: value.to_owned() }
    }

    /// Appends `c` to the name if `is_name` is set, else to the value.
    pub fn add_char(&mut self, c: char, is_name: bool)
        ensures
            is_name ==> final(self)@ == (AttributeView {
                name: old(self)@.name.push(c),
                value: old(self)@.value,
            }),
            !is_name ==> final(self)@ == (AttributeView {
                name: old(self)@.name,
                value: old(self)@.value.push(c),
            }),
    {
        if is_name {
            self.name.push(c);
        } else {
            self.value.push(c);
        }
    }

    pub fn name(&self) -> (r: String)
        ensures
            r@ == self@.name,
    {
        self.name.clone()
    }

    pub fn value(&self) -> (r: String)
        ensures
            r@ == self@.value,
    {
        self.value.clone()
    }
}

/// The views of a list of attributes, in order.
pub open spec fn attributes_view(attributes: Seq<Attribute>) -> Seq<AttributeView> {
    Seq::new(attributes.len(), |i: int| attributes[i]@)
}

/// A copy of a list of attributes.
pub fn clone_attributes(attributes: &Vec<Attribute>) -> (r: Vec<Attribute>)
    ensures
        attributes_view(r@) == attributes_view(attributes@),
{
    let mut out: Vec<Attribute> = Vec::new();
    let mut i: usize = 0;
    while i < attributes.len()
        invariant
            i <= attributes.len(),
            out.len() == i,
            forall|j: int| 0 <= j < i ==> out[j]@ == attributes[j]@,
        decreases attributes.len() - i,
    {
        out.push(attributes[i].clone());
        i = i + 1;
    }
    assert(attributes_view(out@) =~= attributes_view(attributes@));
    out
}

/// What a node carries, as plain values.
pub enum NodeData {
    Document,
    Element { kind: ElementKind, attributes: Seq<AttributeView> },
    Text(Seq<char>),
}

/// An element: its kind and its attributes in the order of appearance.
/// Attributes with the same name are all kept.
#[derive(Debug, PartialEq, Eq)]
pub struct Element {
    kind: ElementKind,
    attributes: Vec<Attribute>,
}

impl Element {
    pub closed spec fn spec_kind(&self) -> ElementKind {
        self.kind
    }

    pub closed spec fn spec_attributes(&self) -> Seq<AttributeView> {
        attributes_view(self.attributes@)
    }

    pub fn new(kind: ElementKind, attributes: Vec<Attribute>) -> (r: Self)
        ensures
            r.spec_kind() == kind,
            r.spec_attributes() == attributes_view(attributes@),
    {
        Element { kind, attributes }
    }

    pub fn kind(&self) -> (r: ElementKind)
        ensures
            r == self.spec_kind(),
    {
        self.kind
    }

    pub fn attributes(&self) -> (r: &Vec<Attribute>)
        ensures
            attributes_view(r@) == self.spec_attributes(),
    {
        &self.attributes
    }
}

/// The payload of a node.
#[derive(Debug, PartialEq, Eq)]
pub enum NodeKind {
    Document,
    Element(Element),
    Text(String),
}

impl View for NodeKind {
    type V = NodeData;

    open spec fn view(&self) -> NodeData {
        match self {
            NodeKind::Document => NodeData::Document,
            NodeKind::Element(e) => NodeData::Element {
                kind: e.spec_kind(),
                attributes: e.spec_attributes(),
            },
            NodeKind::Text(s) => NodeData::Text(s@),
        }
    }
}

impl Clone for NodeKind {
    fn clone(&self) -> (r: Self)
        ensures
            r@ == self@,
    {
        match self {
            NodeKind::Document => NodeKind::Document,
            NodeKind::Element(e) => NodeKind::Element(
                Element { kind: e.kind, attributes: clone_attributes(&e.attributes) },
            ),
            NodeKind::Text(s) => NodeKind::Text(s.clone()),
        }
    }
}

/// The payload of a new element node.
pub fn create_element(kind: ElementKind, attributes: Vec<Attribute>) -> (r: NodeKind)
    ensures
        r@ == (NodeData::Element { kind, attributes: attributes_view(attributes@) }),
{
    NodeKind::Element(Element::new(kind, attributes))
}

/// The payload of a new text node.
pub fn create_text(s: String) -> (r: NodeKind)
    ensures
        r@ == NodeData::Text(s@),
{
    NodeKind::Text(s)
}

/// One record of the arena, as plain values.
pub struct NodeView {
    pub data: NodeData,
    pub parent: Option<usize>,
    pub children: Seq<usize>,
    pub next_sibling: Option<usize>,
}

/// A document as a sequence of node records; a node's index is its name.
pub type DomView = Seq<NodeView>;

/// A node of the arena.
#[derive(Debug, PartialEq, Eq)]
pub struct Node {
    kind: NodeKind,
    parent: Option<usize>,
    children: Vec<usize>,
    next_sibling: Option<usize>,
}

impl View for Node {
    type V = NodeView;

    closed spec fn view(&self) -> NodeView {
        NodeView {
            data: self.kind@,
            parent: self.parent,
            children: self.children@,
            next_sibling: self.next_sibling,
        }
    }
}

impl Clone for Node {
    fn clone(&self) -> (r: Self)
        ensures
            r@ == self@,
    {
        let mut children: Vec<usize> = Vec::new();
        let mut i: usize = 0;
        while i < self.children.len()
            invariant
                i <= self.children.len(),
                children@ == self.children@.subrange(0, i as int),
            decreases self.children.len() - i,
        {
            children.push(self.children[i]);
            i = i + 1;
        }
        assert(children@ == self.children@);
        Node {
            kind: self.kind.clone(),
            parent: self.parent,
            children,
            next_sibling: self.next_sibling,
        }
    }
}

impl Node {
    pub fn kind(&self) -> (r: &NodeKind)
        ensures
            r@ == self@.data,
    {
        &self.kind
    }

    /// The element kind of an element node; `None` for any other node.
    pub fn element_kind(&self) -> (r: Option<ElementKind>)
        ensures
            r == data_element_kind(self@.data),
    {
        match &self.kind {
            NodeKind::Element(e) => Some(e.kind),
            _ => None,
        }
    }

    pub fn parent(&self) -> (r: Option<usize>)
        ensures
            r == self@.parent,
    {
        self.parent
    }

    pub fn first_child(&self) -> (r: Option<usize>)
        ensures
            r == first_of(self@.children),
    {
        if self.children.len() > 0 {
            Some(self.children[0])
        } else {
            None
        }
    }

    pub fn last_child(&self) -> (r: Option<usize>)
        ensures
            r == last_of(self@.children),
    {
        let n: usize = self.children.len();
        if n > 0 {
            Some(self.children[n - 1])
        } else {
            None
        }
    }

    pub fn next_sibling(&self) -> (r: Option<usize>)
        ensures
            r == self@.next_sibling,
    {
        self.next_sibling
    }

    pub fn children(&self) -> (r: &Vec<usize>)
        ensures
            r@ == self@.children,
    {
        &self.children
    }
}

pub open spec fn data_element_kind(data: NodeData) -> Option<ElementKind> {
    match data {
        NodeData::Element { kind, .. } => Some(kind),
        _ => None,
    }
}

pub open spec fn first_of(ids: Seq<usize>) -> Option<usize> {
    if ids.len() > 0 {
        Some(ids[0])
    } else {
        None
    }
}

pub open spec fn last_of(ids: Seq<usize>) -> Option<usize> {
    if ids.len() > 0 {
        Some(ids[ids.len() - 1])
    } else {
        None
    }
}

/// The record of a document node that has no children yet.
pub open spec fn document_record() -> NodeView {
    NodeView { data: NodeData::Document, parent: None, children: Seq::empty(), next_sibling: None }
}

/// The empty document: the document node alone.
pub open spec fn dom_new() -> DomView {
    seq![document_record()]
}

/// The document after a new node carrying `data` became the last child of
/// `parent`. The new node gets the next free index; the former last child of
/// `parent`, if there is one, gets the new node as its next sibling.
pub open spec fn dom_append(dom: DomView, parent: usize, data: NodeData) -> DomView {
    let id = dom.len() as usize;
    let kids = dom[parent as int].children;
    let linked = if kids.len() > 0 {
        let last = kids[kids.len() - 1];
        dom.update(last as int, NodeView { next_sibling: Some(id), ..dom[last as int] })
    } else {
        dom
    };
    linked.update(
        parent as int,
        NodeView { children: kids.push(id), ..linked[parent as int] },
    ).push(NodeView { data, parent: Some(parent), children: Seq::empty(), next_sibling: None })
}

/// The document after `c` was added to the end of text node `id`; any other
/// kind of node is left as it is.
pub open spec fn dom_push_char(dom: DomView, id: usize, c: char) -> DomView {
    match dom[id as int].data {
        NodeData::Text(s) => dom.update(
            id as int,
            NodeView { data: NodeData::Text(s.push(c)), ..dom[id as int] },
        ),
        _ => dom,
    }
}

/// Node `i` is not a document, and its parent has a smaller index and lists it
/// among its children.
pub open spec fn node_ok(dom: DomView, i: int) -> bool {
    &&& !(dom[i].data is Document)
    &&& dom[i].parent matches Some(p) && p < i && dom[p as int].children.contains(i as usize)
}

/// The `k`-th child of `p` names `p` as its parent, has a larger index than
/// `p`, and is linked to the child after it.
pub open spec fn child_ok(dom: DomView, p: int, k: int) -> bool {
    let kids = dom[p].children;
    let c = kids[k];
    &&& p < c < dom.len()
    &&& dom[c as int].parent == Some(p as usize)
    &&& dom[c as int].next_sibling == (if k + 1 < kids.len() {
        Some(kids[k + 1])
    } else {
        None::<usize>
    })
    &&& (k + 1 < kids.len() ==> c < kids[k + 1])
}

/// The records describe a tree rooted at the document node 0, and there are
/// no more of them than a `usize` can name.
pub open spec fn tree_wf(dom: DomView) -> bool {
    &&& 1 <= dom.len() <= usize::MAX
    &&& dom[0].data is Document
    &&& dom[0].parent is None
    &&& dom[0].next_sibling is None
    &&& forall|i: int| 1 <= i < dom.len() ==> #[trigger] node_ok(dom, i)
    &&& forall|p: int, k: int|
        0 <= p < dom.len() && 0 <= k < dom[p].children.len() ==> #[trigger] child_ok(dom, p, k)
}

/// Appending a node below an existing one keeps the records a tree.
pub proof fn lemma_append_keeps_tree(dom: DomView, parent: usize, data: NodeData)
    requires
        tree_wf(dom),
        parent < dom.len(),
        !(data is Document),
        dom.len() < usize::MAX,
    ensures
        tree_wf(dom_append(dom, parent, data)),
        dom_append(dom, parent, data).len() == dom.len() + 1,
{
    let id = dom.len() as usize;
    let kids = dom[parent as int].children;
    let next = dom_append(dom, parent, data);
    if kids.len() > 0 {
        assert(child_ok(dom, parent as int, kids.len() - 1));
    }
    assert forall|i: int| 1 <= i < next.len() implies #[trigger] node_ok(next, i) by {
        if i < dom.len() {
            assert(node_ok(dom, i));
            let q = dom[i].parent.unwrap();
            let k = choose|k: int| 0 <= k < dom[q as int].children.len() && dom[q as int].children[k] == i as usize;
            assert(next[q as int].children[k] == i as usize);
        } else {
            assert(next[parent as int].children[kids.len() as int] == id);
        }
    }
    assert forall|p: int, k: int|
        0 <= p < next.len() && 0 <= k < next[p].children.len() implies #[trigger] child_ok(
        next,
        p,
        k,
    ) by {
        if p == parent as int {
            if k < kids.len() {
                assert(child_ok(dom, p, k));
            }
        } else {
            assert(child_ok(dom, p, k));
        }
    }
}

/// Extending a text node keeps the records a tree.
pub proof fn lemma_push_char_keeps_tree(dom: DomView, id: usize, c: char)
    requires
        tree_wf(dom),
        id < dom.len(),
    ensures
        tree_wf(dom_push_char(dom, id, c)),
        dom_push_char(dom, id, c).len() == dom.len(),
{
    let next = dom_push_char(dom, id, c);
    assert forall|i: int| 1 <= i < next.len() implies #[trigger] node_ok(next, i) by {
        assert(node_ok(dom, i));
    }
    assert forall|p: int, k: int|
        0 <= p < next.len() && 0 <= k < next[p].children.len() implies #[trigger] child_ok(
        next,
        p,
        k,
    ) by {
        assert(child_ok(dom, p, k));
    }
}

/// Appending a node makes the document longer by one record.
pub proof fn lemma_append_len(dom: DomView, parent: usize, data: NodeData)
    requires
        tree_wf(dom),
        parent < dom.len(),
    ensures
        dom_append(dom, parent, data).len() == dom.len() + 1,
{
    let kids = dom[parent as int].children;
    if kids.len() > 0 {
        assert(child_ok(dom, parent as int, kids.len() - 1));
    }
}

/// What appending a node changes and what it leaves alone: the new node is
/// the last record, the parent's child list grows by it, and no other node
/// changes its payload, its parent or its children.
pub proof fn lemma_append_frame(dom: DomView, parent: usize, data: NodeData)
    requires
        tree_wf(dom),
        parent < dom.len(),
        dom.len() < usize::MAX,
    ensures
        ({
            let next = dom_append(dom, parent, data);
            let id = dom.len() as int;
            &&& next.len() == dom.len() + 1
            &&& next[id].data == data
            &&& next[id].parent == Some(parent)
            &&& next[id].children == Seq::<usize>::empty()
            &&& next[parent as int].children == dom[parent as int].children.push(id as usize)
            &&& forall|i: int|
                0 <= i < dom.len() ==> (#[trigger] next[i]).data == dom[i].data && next[i].parent
                    == dom[i].parent
            &&& forall|i: int|
                0 <= i < dom.len() && i != parent ==> (#[trigger] next[i]).children
                    == dom[i].children
        }),
{
    let kids = dom[parent as int].children;
    if kids.len() > 0 {
        assert(child_ok(dom, parent as int, kids.len() - 1));
    }
}

/// What extending a text node changes and what it leaves alone: only the
/// payload of that one node.
pub proof fn lemma_push_char_frame(dom: DomView, id: usize, c: char)
    requires
        id < dom.len(),
    ensures
        ({
            let next = dom_push_char(dom, id, c);
            &&& next.len() == dom.len()
            &&& forall|i: int|
                0 <= i < dom.len() ==> (#[trigger] next[i]).parent == dom[i].parent
                    && next[i].children == dom[i].children && next[i].next_sibling
                    == dom[i].next_sibling
            &&& forall|i: int| 0 <= i < dom.len() && i != id ==> (#[trigger] next[i]).data == dom[i].data
            &&& dom[id as int].data matches NodeData::Text(s) ==> next[id as int].data
                == NodeData::Text(s.push(c))
            &&& !(dom[id as int].data is Text) ==> next == dom
        }),
{
}

/// The children of a node are listed by rising index.
pub proof fn lemma_children_rise(dom: DomView, p: int, i: int, j: int)
    requires
        tree_wf(dom),
        0 <= p < dom.len(),
        0 <= i < j < dom[p].children.len(),
    ensures
        dom[p].children[i] < dom[p].children[j],
    decreases j - i,
{
    assert(child_ok(dom, p, i));
    if i + 1 < j {
        lemma_children_rise(dom, p, i + 1, j);
    }
}

/// A node stands in one child list only, and only once in it: if two places
/// in child lists name the same node, they are the same place.
pub proof fn lemma_single_parent(dom: DomView, p: int, i: int, q: int, j: int)
    requires
        tree_wf(dom),
        0 <= p < dom.len(),
        0 <= q < dom.len(),
        0 <= i < dom[p].children.len(),
        0 <= j < dom[q].children.len(),
        dom[p].children[i] == dom[q].children[j],
    ensures
        p == q,
        i == j,
{
    assert(child_ok(dom, p, i));
    assert(child_ok(dom, q, j));
    if i < j {
        lemma_children_rise(dom, p, i, j);
    }
    if j < i {
        lemma_children_rise(dom, p, j, i);
    }
}

/// Every node but the document stands in the child list of its parent.
pub proof fn lemma_listed_by_parent(dom: DomView, i: int)
    requires
        tree_wf(dom),
        1 <= i < dom.len(),
    ensures
        dom[i].parent matches Some(p) && p < i && exists|k: int|
            0 <= k < dom[p as int].children.len() && dom[p as int].children[k] == i,
{
    assert(node_ok(dom, i));
    let p = dom[i].parent.unwrap();
    let kids = dom[p as int].children;
    assert(kids.contains(i as usize));
    let k = choose|k: int| 0 <= k < kids.len() && kids[k] == i as usize;
    assert(0 <= k < dom[p as int].children.len() && dom[p as int].children[k] == i);
}

/// How many steps node `i` is away from the document node, going from child
/// to parent.
pub open spec fn depth(dom: DomView, i: int) -> nat
    decreases i,
{
    if 0 < i < dom.len() {
        match dom[i].parent {
            Some(p) => if p < i {
                1 + depth(dom, p as int)
            } else {
                0
            },
            None => 0,
        }
    } else {
        0
    }
}

/// The node reached from `i` after `n` steps from child to parent; a node
/// without a parent stays where it is.
pub open spec fn ancestor(dom: DomView, i: int, n: nat) -> int
    decreases n,
{
    if n == 0 {
        i
    } else {
        match dom[i].parent {
            Some(p) => ancestor(dom, p as int, (n - 1) as nat),
            None => i,
        }
    }
}

/// Every node hangs below the document node: going from child to parent
/// `depth` times ends there. So there is no cycle, and a walk that starts at
/// the document node and follows the child lists level by level meets every
/// node, each at the level of its depth.
pub proof fn lemma_reaches_document(dom: DomView, i: int)
    requires
        tree_wf(dom),
        0 <= i < dom.len(),
    ensures
        ancestor(dom, i, depth(dom, i)) == 0,
        depth(dom, i) <= i,
        depth(dom, i) == 0 <==> i == 0,
        i > 0 ==> depth(dom, i) == depth(dom, dom[i].parent.unwrap() as int) + 1,
    decreases i,
{
    if i > 0 {
        assert(node_ok(dom, i));
        lemma_reaches_document(dom, dom[i].parent.unwrap() as int);
    }
}

/// The links between siblings agree with the child lists: the first child
/// has no sibling before it in the list, each child names the one after it as
/// its next sibling, and the last child names none.
pub proof fn lemma_sibling_links(dom: DomView, p: int, k: int)
    requires
        tree_wf(dom),
        0 <= p < dom.len(),
        0 <= k < dom[p].children.len(),
    ensures
        k + 1 < dom[p].children.len() ==> dom[dom[p].children[k] as int].next_sibling == Some(
            dom[p].children[k + 1],
        ),
        k + 1 == dom[p].children.len() ==> dom[dom[p].children[k] as int].next_sibling is None,
        dom[dom[p].children[k] as int].parent == Some(p as usize),
{
    assert(child_ok(dom, p, k));
}

/// Owner of the document tree.
#[derive(Debug, PartialEq, Eq)]
pub struct Window {
    nodes: Vec<Node>,
}

impl View for Window {
    type V = DomView;

    closed spec fn view(&self) -> DomView {
        Seq::new(self.nodes.len() as nat, |i: int| self.nodes[i]@)
    }
}

impl Clone for Window {
    fn clone(&self) -> (r: Self)
        ensures
            r@ == self@,
    {
        let mut nodes: Vec<Node> = Vec::new();
        let mut i: usize = 0;
        while i < self.nodes.len()
            invariant
                i <= self.nodes.len(),
                nodes.len() == i,
                forall|j: int| 0 <= j < i ==> nodes[j]@ == self.nodes[j]@,
            decreases self.nodes.len() - i,
        {
            nodes.push(self.nodes[i].clone());
            i = i + 1;
        }
        let r = Window { nodes };
        assert(r@ =~= self@);
        r
    }
}

impl Window {
    /// The tree invariant of the document this window owns.
    pub open spec fn wf(&self) -> bool {
        tree_wf(self@)
    }

    /// A window that owns an empty document.
    pub fn new() -> (w: Self)
        ensures
            w@ == dom_new(),
            w.wf(),
    {
        let mut nodes: Vec<Node> = Vec::new();
        nodes.push(
            Node { kind: NodeKind::Document, parent: None, children: Vec::new(), next_sibling: None },
        );
        let w = Window { nodes };
        assert(w@ =~= dom_new());
        w
    }

    /// A document in memory has no more nodes than a `usize` can count.
    pub proof fn lemma_fits(&self)
        ensures
            self@.len() <= usize::MAX,
    {
    }

    /// The index of the document node.
    pub fn document(&self) -> (r: usize)
        ensures
            r == 0,
    {
        0
    }

    /// The number of nodes, the document node included.
    pub fn len(&self) -> (r: usize)
        ensures
            r == self@.len(),
    {
        self.nodes.len()
    }

    pub fn node(&self, id: usize) -> (r: &Node)
        requires
            id < self@.len(),
        ensures
            r@ == self@[id as int],
    {
        &self.nodes[id]
    }

    /// The last child of node `id`, if it has children.
    pub fn last_child(&self, id: usize) -> (r: Option<usize>)
        requires
            id < self@.len(),
        ensures
            r == last_of(self@[id as int].children),
    {
        self.nodes[id].last_child()
    }

    /// Creates a node that carries `child` and attaches it as the last child
    /// of `parent`. A node is born attached and is never moved, so it has
    /// exactly one parent for as long as the document lives.
    pub fn append_child(&mut self, parent: usize, child: NodeKind) -> (id: usize)
        requires
            old(self).wf(),
            parent < old(self)@.len(),
            !(child is Document),
        ensures
            final(self)@ == dom_append(old(self)@, parent, child@),
            id == old(self)@.len(),
            final(self)@[id as int].parent == Some(parent),
            final(self).wf(),
    {
        let id: usize = self.nodes.len();
        let n: usize = self.nodes[parent].children.len();
        if n > 0 {
            let last: usize = self.nodes[parent].children[n - 1];
            proof {
                assert(child_ok(self@, parent as int, n - 1));
            }
            self.nodes[last].next_sibling = Some(id);
        }
        self.nodes[parent].children.push(id);
        self.nodes.push(
            Node { kind: child, parent: Some(parent), children: Vec::new(), next_sibling: None },
        );
        proof {
            assert(id < usize::MAX) by {
                assert(self.nodes.len() == id + 1);
            }
            assert(self@ =~= dom_append(old(self)@, parent, child@));
            lemma_append_keeps_tree(old(self)@, parent, child@);
        }
        id
    }

    /// Adds `c` to the end of text node `id`. Any other kind of node is left
    /// as it is.
    pub fn append_char(&mut self, id: usize, c: char)
        requires
            old(self).wf(),
            id < old(self)@.len(),
        ensures
            final(self)@ == dom_push_char(old(self)@, id, c),
            final(self).wf(),
    {
        match &mut self.nodes[id].kind {
            NodeKind::Text(s) => {
                s.push(c);
            },
            _ => {},
        }
        proof {
            assert(self@ =~= dom_push_char(old(self)@, id, c));
            lemma_push_char_keeps_tree(old(self)@, id, c);
        }
    }
}

} // verus!

//! A DOM-like document tree.
//!
//! Nodes live in a [`Document`] and are addressed by [`NodeRef`] handles.
//! Every node has a tag, a set of attributes, an optional text, an optional
//! parent link and an ordered list of children.  A child list may name any
//! node of the document, so the structure the operations build is a general
//! graph; the queries that walk it state what they need of it (a parent chain
//! that ends, a subtree that is finite).

use vstd::prelude::*;
use crate::text::push_char;

verus! {

/// A handle on a node of a [`Document`]: the node's position in the document.
#[derive(Clone, Copy, PartialEq, Eq, Structural, Debug)]
pub struct NodeRef {
    pub index: usize,
}

/// The text content of a node.
#[derive(Clone, PartialEq, Debug)]
pub struct TextContent {
    text: String,
}

impl View for TextContent {
    type V = Seq<char>;

    closed spec fn view(&self) -> Seq<char> {
        self.text@
    }
}

impl TextContent {
    pub fn new(text: &str) -> (r: TextContent)
        ensures
            r@ == text@,
    {
        TextContent { text: String::from_str(text) }
    }

    pub fn as_str(&self) -> (r: &str)
        ensures
            r@ == self@,
    {
        self.text.as_str()
    }
}

impl core::ops::Deref for TextContent {
    type Target = str;

    fn deref(&self) -> (r: &str)
        ensures
            r@ == self@,
    {
        self.text.as_str()
    }
}

/// One element of the document.
pub struct Node {
    tag: String,
    attributes: Vec<(String, String)>,
    text: Option<TextContent>,
    parent: Option<NodeRef>,
    children: Vec<NodeRef>,
}

/// What a node holds, as mathematical values.
#[verifier::ext_equal]
pub struct NodeView {
    pub tag: Seq<char>,
    pub attributes: Seq<(Seq<char>, Seq<char>)>,
    pub text: Option<Seq<char>>,
    pub parent: Option<NodeRef>,
    pub children: Seq<NodeRef>,
}

pub open spec fn attribute_view(p: (String, String)) -> (Seq<char>, Seq<char>) {
    (p.0@, p.1@)
}

pub open spec fn text_view(t: Option<TextContent>) -> Option<Seq<char>> {
    match t {
        Some(c) => Some(c@),
        None => None,
    }
}

impl View for Node {
    type V = NodeView;

    closed spec fn view(&self) -> NodeView {
        NodeView {
            tag: self.tag@,
            attributes: self.attributes@.map_values(|p: (String, String)| attribute_view(p)),
            text: text_view(self.text),
            parent: self.parent,
            children: self.children@,
        }
    }
}

/// The arena that owns every node.
pub struct Document {
    nodes: Vec<Node>,
}

impl View for Document {
    type V = Seq<NodeView>;

    closed spec fn view(&self) -> Seq<NodeView> {
        self.nodes@.map_values(|n: Node| n@)
    }
}

/// The node that `tag` names when created.
pub open spec fn fresh_node(tag: Seq<char>) -> NodeView {
    NodeView {
        tag: tag,
        attributes: Seq::empty(),
        text: None,
        parent: None,
        children: Seq::empty(),
    }
}

/// A handle names a node of the document.
pub open spec fn valid_ref(d: Seq<NodeView>, r: NodeRef) -> bool {
    r.index < d.len()
}

/// Every link held by the document names one of its nodes.
pub open spec fn links_valid(d: Seq<NodeView>) -> bool {
    forall|i: int|
        0 <= i < d.len() ==> {
            &&& (#[trigger] d[i]).parent matches Some(p) ==> valid_ref(d, p)
            &&& forall|j: int| 0 <= j < d[i].children.len() ==> valid_ref(d, #[trigger] d[i].children[j])
        }
}

/// The value that `key` has in an attribute list (its first entry).
pub open spec fn attribute_lookup(attrs: Seq<(Seq<char>, Seq<char>)>, key: Seq<char>) -> Option<Seq<char>>
    decreases attrs.len(),
{
    if attrs.len() == 0 {
        None
    } else if attrs[0].0 == key {
        Some(attrs[0].1)
    } else {
        attribute_lookup(attrs.drop_first(), key)
    }
}

/// No key occurs twice in an attribute list.
pub open spec fn keys_unique(attrs: Seq<(Seq<char>, Seq<char>)>) -> bool {
    forall|i: int, j: int| 0 <= i < j < attrs.len() ==> (#[trigger] attrs[i]).0 != (#[trigger] attrs[j]).0
}

/// The first position of `key` in an attribute list.
pub open spec fn attribute_position(attrs: Seq<(Seq<char>, Seq<char>)>, key: Seq<char>) -> Option<int>
    decreases attrs.len(),
{
    if attrs.len() == 0 {
        None
    } else if attrs[0].0 == key {
        Some(0)
    } else {
        match attribute_position(attrs.drop_first(), key) {
            Some(i) => Some(i + 1),
            None => None,
        }
    }
}

/// Setting an attribute replaces the value of its first entry, or appends
/// a new entry when the key is absent.
pub open spec fn attribute_set(
    attrs: Seq<(Seq<char>, Seq<char>)>,
    key: Seq<char>,
    value: Seq<char>,
) -> Seq<(Seq<char>, Seq<char>)> {
    match attribute_position(attrs, key) {
        Some(i) => attrs.update(i, (key, value)),
        None => attrs.push((key, value)),
    }
}

/// The first position of `x` in a child list.
pub open spec fn child_position(children: Seq<NodeRef>, x: NodeRef) -> Option<int>
    decreases children.len(),
{
    if children.len() == 0 {
        None
    } else if children[0] == x {
        Some(0)
    } else {
        match child_position(children.drop_first(), x) {
            Some(i) => Some(i + 1),
            None => None,
        }
    }
}

pub open spec fn with_children(n: NodeView, children: Seq<NodeRef>) -> NodeView {
    NodeView { children: children, ..n }
}

pub open spec fn with_parent(n: NodeView, parent: Option<NodeRef>) -> NodeView {
    NodeView { parent: parent, ..n }
}

/// The document after `child` is appended to `parent`'s children and its
/// parent link is set to `parent`.
pub open spec fn add_child_spec(d: Seq<NodeView>, parent: NodeRef, child: NodeRef) -> Seq<NodeView> {
    let p = parent.index as int;
    let c = child.index as int;
    let d1 = d.update(p, with_children(d[p], d[p].children.push(child)));
    d1.update(c, with_parent(d1[c], Some(parent)))
}

/// The document after the first occurrence of `child` leaves `parent`'s
/// children and the child's parent link is cleared; unchanged when `child`
/// is not among them.
pub open spec fn remove_child_spec(d: Seq<NodeView>, parent: NodeRef, child: NodeRef) -> Seq<NodeView> {
    let p = parent.index as int;
    let c = child.index as int;
    match child_position(d[p].children, child) {
        Some(i) => {
            let d1 = d.update(p, with_children(d[p], d[p].children.remove(i)));
            d1.update(c, with_parent(d1[c], None))
        },
        None => d,
    }
}

/// The links held by one node of a document whose links are valid.
proof fn lemma_node_links(d: Seq<NodeView>, i: int)
    requires
        links_valid(d),
        0 <= i < d.len(),
    ensures
        d[i].parent matches Some(p) ==> valid_ref(d, p),
        forall|j: int| 0 <= j < d[i].children.len() ==> valid_ref(d, #[trigger] d[i].children[j]),
{
    assert(d[i] == d[i]);
}

proof fn lemma_attribute_position(attrs: Seq<(Seq<char>, Seq<char>)>, key: Seq<char>)
    ensures
        match attribute_position(attrs, key) {
            Some(i) => 0 <= i < attrs.len() && attrs[i].0 == key && forall|j: int|
                0 <= j < i ==> attrs[j].0 != key,
            None => forall|j: int| 0 <= j < attrs.len() ==> attrs[j].0 != key,
        },
        attribute_lookup(attrs, key) == match attribute_position(attrs, key) {
            Some(i) => Some(attrs[i].1),
            None => None,
        },
    decreases attrs.len(),
{
    if attrs.len() > 0 {
        lemma_attribute_position(attrs.drop_first(), key);
        if attrs[0].0 != key {
            match attribute_position(attrs.drop_first(), key) {
                Some(i) => {
                    assert forall|j: int| 0 <= j < i + 1 implies attrs[j].0 != key by {
                        if j > 0 {
                            assert(attrs[j] == attrs.drop_first()[j - 1]);
                        }
                    }
                },
                None => {
                    assert forall|j: int| 0 <= j < attrs.len() implies attrs[j].0 != key by {
                        if j > 0 {
                            assert(attrs[j] == attrs.drop_first()[j - 1]);
                        }
                    }
                },
            }
        }
    }
}

proof fn lemma_child_position(children: Seq<NodeRef>, x: NodeRef)
    ensures
        match child_position(children, x) {
            Some(i) => 0 <= i < children.len() && children[i] == x && forall|j: int|
                0 <= j < i ==> children[j] != x,
            None => !children.contains(x),
        },
    decreases children.len(),
{
    if children.len() > 0 {
        lemma_child_position(children.drop_first(), x);
        if children[0] != x {
            match child_position(children.drop_first(), x) {
                Some(i) => {
                    assert forall|j: int| 0 <= j < i + 1 implies children[j] != x by {
                        if j > 0 {
                            assert(children[j] == children.drop_first()[j - 1]);
                        }
                    }
                },
                None => {
                    if children.contains(x) {
                        let j = choose|j: int| 0 <= j < children.len() && children[j] == x;
                        assert(children.drop_first()[j - 1] == x);
                    }
                },
            }
        }
    }
}

proof fn lemma_attribute_position_at(attrs: Seq<(Seq<char>, Seq<char>)>, key: Seq<char>, i: int)
    requires
        0 <= i < attrs.len(),
        attrs[i].0 == key,
        forall|j: int| 0 <= j < i ==> (#[trigger] attrs[j]).0 != key,
    ensures
        attribute_position(attrs, key) == Some(i),
        attribute_lookup(attrs, key) == Some(attrs[i].1),
{
    lemma_attribute_position(attrs, key);
    match attribute_position(attrs, key) {
        Some(k) => {
            if k < i {
                assert(attrs[k].0 != key);
            } else if k > i {
                assert(attrs[i].0 != key);
            }
        },
        None => {
            assert(attrs[i].0 != key);
        },
    }
}

proof fn lemma_child_position_at(children: Seq<NodeRef>, x: NodeRef, i: int)
    requires
        0 <= i < children.len(),
        children[i] == x,
        forall|j: int| 0 <= j < i ==> children[j] != x,
    ensures
        child_position(children, x) == Some(i),
{
    lemma_child_position(children, x);
    match child_position(children, x) {
        Some(k) => {
            if k < i {
                assert(children[k] != x);
            } else if k > i {
                assert(children[i] != x);
            }
        },
        None => {
            assert(children.contains(x));
        },
    }
}

/// Setting an attribute keeps the keys of the list unique.
pub proof fn lemma_attribute_set_keeps_keys_unique(
    attrs: Seq<(Seq<char>, Seq<char>)>,
    key: Seq<char>,
    value: Seq<char>,
)
    requires
        keys_unique(attrs),
    ensures
        keys_unique(attribute_set(attrs, key, value)),
{
    lemma_attribute_position(attrs, key);
    let s = attribute_set(attrs, key, value);
    assert forall|i: int, j: int| 0 <= i < j < s.len() implies (#[trigger] s[i]).0 != (#[trigger] s[j]).0 by {
        match attribute_position(attrs, key) {
            Some(p) => {
                if i != p && j != p {
                    assert(s[i] == attrs[i] && s[j] == attrs[j]);
                } else if i == p {
                    assert(s[j] == attrs[j]);
                    assert(attrs[p].0 != attrs[j].0);
                } else {
                    assert(s[i] == attrs[i]);
                    assert(attrs[i].0 != attrs[p].0);
                }
            },
            None => {
                if j < attrs.len() {
                    assert(s[i] == attrs[i] && s[j] == attrs[j]);
                } else {
                    assert(s[i] == attrs[i]);
                }
            },
        }
    }
}

impl Node {
    /// Sets an attribute: the value of an existing key is replaced in place,
    /// a new key is appended.
    pub fn set_attribute(&mut self, key: &str, value: &str)
        ensures
            final(self)@ == (NodeView {
                attributes: attribute_set(old(self)@.attributes, key@, value@),
                ..old(self)@
            }),
            keys_unique(old(self)@.attributes) ==> keys_unique(final(self)@.attributes),
    {
        proof {
            if keys_unique(old(self)@.attributes) {
                lemma_attribute_set_keeps_keys_unique(old(self)@.attributes, key@, value@);
            }
        }
        let key_string = String::from_str(key);
        let n = self.attributes.len();
        let mut i: usize = 0;
        proof {
            lemma_attribute_position(old(self)@.attributes, key@);
        }
        while i < n
            invariant
                n == self.attributes.len(),
                self == old(self),
                key_string@ == key@,
                0 <= i <= n,
                forall|j: int| 0 <= j < i ==> (#[trigger] self@.attributes[j]).0 != key@,
            decreases n - i,
        {
            proof {
                assert(self@.attributes[i as int] == attribute_view(self.attributes@[i as int]));
            }
            if self.attributes[i].0 == key_string {
                let ghost before = self.attributes@;
                self.attributes.set(i, (key_string, String::from_str(value)));
                proof {
                    lemma_attribute_position_at(old(self)@.attributes, key@, i as int);
                    assert(self.attributes@ == before.update(i as int, self.attributes@[i as int]));
                    assert(self@.attributes =~= attribute_set(old(self)@.attributes, key@, value@));
                }
                return;
            }
            i = i + 1;
        }
        proof {
            assert(attribute_position(old(self)@.attributes, key@) is None);
        }
        self.attributes.push((key_string, String::from_str(value)));
        proof {
            assert(self@.attributes =~= attribute_set(old(self)@.attributes, key@, value@));
        }
    }

    /// The node's tag.
    pub fn tag(&self) -> (r: &String)
        ensures
            r@ == self@.tag,
    {
        &self.tag
    }

    /// Replaces the node's tag.
    pub fn set_tag(&mut self, tag: &str)
        ensures
            final(self)@ == (NodeView { tag: tag@, ..old(self)@ }),
    {
        self.tag = String::from_str(tag);
    }

    /// Replaces the node's text.
    pub fn set_text(&mut self, text: &str)
        ensures
            final(self)@ == (NodeView { text: Some(text@), ..old(self)@ }),
    {
        self.text = Some(TextContent::new(text));
    }

    /// The value of an attribute, if the node has it.
    pub fn get_attribute(&self, key: &str) -> (r: Option<&String>)
        ensures
            match r {
                Some(v) => attribute_lookup(self@.attributes, key@) == Some(v@),
                None => attribute_lookup(self@.attributes, key@) is None,
            },
    {
        let key_string = String::from_str(key);
        let n = self.attributes.len();
        let mut i: usize = 0;
        proof {
            lemma_attribute_position(self@.attributes, key@);
        }
        while i < n
            invariant
                n == self.attributes.len(),
                key_string@ == key@,
                0 <= i <= n,
                forall|j: int| 0 <= j < i ==> (#[trigger] self@.attributes[j]).0 != key@,
            decreases n - i,
        {
            proof {
                assert(self@.attributes[i as int] == attribute_view(self.attributes@[i as int]));
            }
            if self.attributes[i].0 == key_string {
                proof {
                    lemma_attribute_position_at(self@.attributes, key@, i as int);
                }
                return Some(&self.attributes[i].1);
            }
            i = i + 1;
        }
        None
    }

    /// The node's attributes, in the order they were first set.
    pub fn attributes(&self) -> (r: &Vec<(String, String)>)
        ensures
            r@.map_values(|p: (String, String)| attribute_view(p)) == self@.attributes,
    {
        &self.attributes
    }

    /// The node's text, if any.
    pub fn text(&self) -> (r: &Option<TextContent>)
        ensures
            text_view(*r) == self@.text,
    {
        &self.text
    }

    /// The node's children, in order.
    pub fn children(&self) -> (r: &Vec<NodeRef>)
        ensures
            r@ == self@.children,
    {
        &self.children
    }

    /// The node's parent, if it has one.
    pub fn parent(&self) -> (r: Option<NodeRef>)
        ensures
            r == self@.parent,
    {
        self.parent
    }
}

impl Document {
    /// An empty document.
    pub fn new() -> (d: Document)
        ensures
            d@ == Seq::<NodeView>::empty(),
    {
        let d = Document { nodes: Vec::new() };
        proof {
            assert(d@ =~= Seq::<NodeView>::empty());
        }
        d
    }

    /// The number of nodes in the document.
    pub fn len(&self) -> (r: usize)
        ensures
            r == self@.len(),
    {
        self.nodes.len()
    }

    /// Reads a node.
    pub fn node(&self, r: NodeRef) -> (n: &Node)
        requires
            valid_ref(self@, r),
        ensures
            n@ == self@[r.index as int],
    {
        &self.nodes[r.index]
    }

    /// Gives access to a node for changing its tag, attributes or text.
    pub fn node_mut(&mut self, r: NodeRef) -> (n: &mut Node)
        requires
            valid_ref(old(self)@, r),
        ensures
            n@ == old(self)@[r.index as int],
            final(self)@ == old(self)@.update(r.index as int, final(n)@),
    {
        &mut self.nodes[r.index]
    }
}

impl Node {
    /// Creates a node with the given tag in the document and returns its handle.
    pub fn new(doc: &mut Document, tag: &str) -> (r: NodeRef)
        requires
            links_valid(old(doc)@),
        ensures
            r.index == old(doc)@.len(),
            final(doc)@ == old(doc)@.push(fresh_node(tag@)),
            links_valid(final(doc)@),
            keys_unique(final(doc)@[r.index as int].attributes),
    {
        let index = doc.nodes.len();
        let node = Node {
            tag: String::from_str(tag),
            attributes: Vec::new(),
            text: None,
            parent: None,
            children: Vec::new(),
        };
        proof {
            assert(node@.attributes =~= Seq::<(Seq<char>, Seq<char>)>::empty());
            assert(node@.children =~= Seq::<NodeRef>::empty());
        }
        doc.nodes.push(node);
        proof {
            assert(doc@ =~= old(doc)@.push(fresh_node(tag@)));
            assert forall|i: int| 0 <= i < doc@.len() implies {
                &&& (#[trigger] doc@[i]).parent matches Some(p) ==> valid_ref(doc@, p)
                &&& forall|j: int| 0 <= j < doc@[i].children.len() ==> valid_ref(doc@, #[trigger] doc@[i].children[j])
            } by {
                if i < old(doc)@.len() {
                    assert(doc@[i] == old(doc)@[i]);
                }
            }
        }
        NodeRef { index }
    }

    /// Appends `child` to `parent`'s children and sets the child's parent link.
    pub fn add_child(doc: &mut Document, parent: NodeRef, child: NodeRef)
        requires
            links_valid(old(doc)@),
            valid_ref(old(doc)@, parent),
            valid_ref(old(doc)@, child),
        ensures
            final(doc)@ == add_child_spec(old(doc)@, parent, child),
            links_valid(final(doc)@),
    {
        let ghost d0 = doc@;
        doc.nodes[parent.index].children.push(child);
        let ghost d1 = doc@;
        proof {
            assert(d1 =~= d0.update(parent.index as int, with_children(d0[parent.index as int], d0[parent.index as int].children.push(child))));
        }
        doc.nodes[child.index].parent = Some(parent);
        proof {
            assert(doc@ =~= d1.update(child.index as int, with_parent(d1[child.index as int], Some(parent))));
            assert forall|i: int| 0 <= i < doc@.len() implies {
                &&& (#[trigger] doc@[i]).parent matches Some(p) ==> valid_ref(doc@, p)
                &&& forall|j: int| 0 <= j < doc@[i].children.len() ==> valid_ref(doc@, #[trigger] doc@[i].children[j])
            } by {
                if i == parent.index {
                    assert forall|j: int| 0 <= j < doc@[i].children.len() implies valid_ref(doc@, #[trigger] doc@[i].children[j]) by {
                        if j < d0[i].children.len() {
                            assert(doc@[i].children[j] == d0[i].children[j]);
                        }
                    }
                }
            }
        }
    }

    /// Removes the first occurrence of `child` from `parent`'s children and
    /// clears the child's parent link; does nothing when `child` is not among
    /// `parent`'s children.
    pub fn remove_child(doc: &mut Document, parent: NodeRef, child: NodeRef)
        requires
            links_valid(old(doc)@),
            valid_ref(old(doc)@, parent),
            valid_ref(old(doc)@, child),
        ensures
            final(doc)@ == remove_child_spec(old(doc)@, parent, child),
            links_valid(final(doc)@),
            removes_first_occurrence(
                old(doc)@[parent.index as int].children,
                final(doc)@[parent.index as int].children,
                child,
            ),
    {
        proof {
            lemma_remove_child_keeps_order(old(doc)@, parent, child);
        }
        let ghost d0 = doc@;
        let n = doc.nodes[parent.index].children.len();
        let mut i: usize = 0;
        proof {
            lemma_child_position(d0[parent.index as int].children, child);
        }
        while i < n
            invariant
                doc@ == d0,
                valid_ref(d0, parent),
                n == d0[parent.index as int].children.len(),
                0 <= i <= n,
                forall|j: int| 0 <= j < i ==> d0[parent.index as int].children[j] != child,
            ensures
                doc@ == d0,
                0 <= i <= n,
                forall|j: int| 0 <= j < i ==> d0[parent.index as int].children[j] != child,
                i < n ==> d0[parent.index as int].children[i as int] == child,
            decreases n - i,
        {
            if doc.nodes[parent.index].children[i] == child {
                break;
            }
            i = i + 1;
        }
        if i < n {
            proof {
                lemma_child_position_at(d0[parent.index as int].children, child, i as int);
            }
            doc.nodes[parent.index].children.remove(i);
            let ghost d1 = doc@;
            proof {
                assert(d1 =~= d0.update(parent.index as int, with_children(d0[parent.index as int], d0[parent.index as int].children.remove(i as int))));
            }
            doc.nodes[child.index].parent = None;
            proof {
                assert(doc@ =~= d1.update(child.index as int, with_parent(d1[child.index as int], None)));
                assert forall|k: int| 0 <= k < doc@.len() implies {
                    &&& (#[trigger] doc@[k]).parent matches Some(p) ==> valid_ref(doc@, p)
                    &&& forall|j: int| 0 <= j < doc@[k].children.len() ==> valid_ref(doc@, #[trigger] doc@[k].children[j])
                } by {
                    if k == parent.index {
                        assert forall|j: int| 0 <= j < doc@[k].children.len() implies valid_ref(doc@, #[trigger] doc@[k].children[j]) by {
                            if j < i {
                                assert(doc@[k].children[j] == d0[k].children[j]);
                            } else {
                                assert(doc@[k].children[j] == d0[k].children[j + 1]);
                            }
                        }
                    }
                }
            }
        } else {
            proof {
                assert(child_position(d0[parent.index as int].children, child) is None);
            }
        }
    }
}

/// The node `k` steps up the parent chain from `n` (`n` itself for `k == 0`),
/// or `None` once the chain has ended.
pub open spec fn ancestor(d: Seq<NodeView>, n: int, k: nat) -> Option<int>
    decreases k,
{
    if k == 0 {
        Some(n)
    } else {
        match ancestor(d, n, (k - 1) as nat) {
            Some(a) => match d[a].parent {
                Some(p) => Some(p.index as int),
                None => None,
            },
            None => None,
        }
    }
}

/// The parent chain from `n` ends.
pub open spec fn reaches_root(d: Seq<NodeView>, n: int) -> bool {
    exists|k: nat| #[trigger] ancestor(d, n, k) is None
}

/// `n` has exactly `k` ancestors.
pub open spec fn is_depth(d: Seq<NodeView>, n: int, k: nat) -> bool {
    &&& ancestor(d, n, k) is Some
    &&& ancestor(d, n, k + 1) is None
}

/// The number of ancestors of `n`: the length of its parent chain.
pub open spec fn depth_of(d: Seq<NodeView>, n: int) -> nat {
    choose|k: nat| is_depth(d, n, k)
}

proof fn lemma_ancestor_valid(d: Seq<NodeView>, n: int, k: nat)
    requires
        links_valid(d),
        0 <= n < d.len(),
    ensures
        ancestor(d, n, k) matches Some(a) ==> 0 <= a < d.len(),
    decreases k,
{
    if k > 0 {
        lemma_ancestor_valid(d, n, (k - 1) as nat);
        if let Some(a) = ancestor(d, n, (k - 1) as nat) {
            lemma_node_links(d, a);
        }
    }
}

proof fn lemma_ancestor_none_stays(d: Seq<NodeView>, n: int, k: nat, j: nat)
    requires
        ancestor(d, n, k) is None,
    ensures
        ancestor(d, n, k + j) is None,
    decreases j,
{
    if j > 0 {
        lemma_ancestor_none_stays(d, n, k, (j - 1) as nat);
        assert(ancestor(d, n, (k + j) as nat) == ancestor(d, n, k + j));
    }
}

proof fn lemma_ancestor_shift(d: Seq<NodeView>, n1: int, n2: int, a: nat, b: nat, m: nat)
    requires
        ancestor(d, n1, a) == ancestor(d, n2, b),
    ensures
        ancestor(d, n1, a + m) == ancestor(d, n2, b + m),
    decreases m,
{
    if m > 0 {
        lemma_ancestor_shift(d, n1, n2, a, b, (m - 1) as nat);
        assert(ancestor(d, n1, (a + m) as nat) == ancestor(d, n1, a + m));
        assert(ancestor(d, n2, (b + m) as nat) == ancestor(d, n2, b + m));
    }
}

proof fn lemma_first_end(d: Seq<NodeView>, n: int, k: nat)
    requires
        ancestor(d, n, k) is None,
    ensures
        exists|j: nat| j < k && is_depth(d, n, j),
    decreases k,
{
    if ancestor(d, n, (k - 1) as nat) is Some {
        assert(is_depth(d, n, (k - 1) as nat));
    } else {
        lemma_first_end(d, n, (k - 1) as nat);
    }
}

proof fn lemma_depth_unique(d: Seq<NodeView>, n: int, k1: nat, k2: nat)
    requires
        is_depth(d, n, k1),
        is_depth(d, n, k2),
    ensures
        k1 == k2,
{
    if k1 < k2 {
        lemma_ancestor_none_stays(d, n, k1 + 1, (k2 - k1 - 1) as nat);
    } else if k2 < k1 {
        lemma_ancestor_none_stays(d, n, k2 + 1, (k1 - k2 - 1) as nat);
    }
}

/// The parent chain of a node whose chain ends has `depth_of` links, visits
/// distinct nodes, and so is shorter than the document.
pub proof fn lemma_depth(d: Seq<NodeView>, n: int)
    requires
        links_valid(d),
        0 <= n < d.len(),
        reaches_root(d, n),
    ensures
        is_depth(d, n, depth_of(d, n)),
        forall|k: nat| is_depth(d, n, k) ==> k == depth_of(d, n),
        depth_of(d, n) < d.len(),
{
    let k0 = choose|k: nat| #[trigger] ancestor(d, n, k) is None;
    lemma_first_end(d, n, k0);
    let kd = depth_of(d, n);
    assert(is_depth(d, n, kd));
    assert forall|k: nat| is_depth(d, n, k) implies k == kd by {
        lemma_depth_unique(d, n, k, kd);
    }
    // the chain visits distinct nodes
    let s = Seq::new(kd + 1, |i: int| ancestor(d, n, i as nat)->0);
    assert forall|t: nat| t <= kd implies #[trigger] ancestor(d, n, t) is Some by {
        if ancestor(d, n, t) is None {
            lemma_ancestor_none_stays(d, n, t, (kd - t) as nat);
        }
    }
    assert forall|i: int, j: int| 0 <= i < s.len() && 0 <= j < s.len() && i != j implies s[i] != s[j] by {
        let (a, b) = if i < j { (i, j) } else { (j, i) };
        assert(ancestor(d, n, a as nat) is Some);
        assert(ancestor(d, n, b as nat) is Some);
        if s[i] == s[j] {
            assert(ancestor(d, n, a as nat) == ancestor(d, n, b as nat));
            lemma_ancestor_shift(d, n, n, a as nat, b as nat, (kd + 1 - b) as nat);
            assert(ancestor(d, n, (a + kd + 1 - b) as nat) is Some);
            assert(false);
        }
    }
    assert(s.no_duplicates());
    s.unique_seq_to_set();
    assert forall|x: int| s.to_set().contains(x) implies vstd::set_lib::set_int_range(0, d.len() as int).contains(x) by {
        let i = choose|i: int| 0 <= i < s.len() && s[i] == x;
        lemma_ancestor_valid(d, n, i as nat);
    }
    vstd::set_lib::lemma_int_range(0, d.len() as int);
    vstd::set_lib::lemma_len_subset(s.to_set(), vstd::set_lib::set_int_range(0, d.len() as int));
}

impl Node {
    /// The number of ancestors of `node`; a root has depth zero.
    pub fn depth(doc: &Document, node: NodeRef) -> (r: usize)
        requires
            links_valid(doc@),
            valid_ref(doc@, node),
            reaches_root(doc@, node.index as int),
        ensures
            r == depth_of(doc@, node.index as int),
    {
        let ghost d = doc@;
        let ghost n = node.index as int;
        proof {
            lemma_depth(d, n);
        }
        let ghost k = depth_of(d, n);
        let mut count: usize = 0;
        let mut cur: usize = node.index;
        let total = doc.nodes.len();
        proof {
            assert(d.len() == total);
        }
        loop
            invariant
                d == doc@,
                d.len() <= usize::MAX,
                n == node.index,
                k == depth_of(d, n),
                links_valid(d),
                0 <= n < d.len(),
                is_depth(d, n, k),
                k < d.len(),
                forall|j: nat| is_depth(d, n, j) ==> j == k,
                ancestor(d, n, count as nat) == Some(cur as int),
                count <= k,
                cur < d.len(),
            decreases k - count,
        {
            proof {
                assert(d[cur as int] == doc.nodes@[cur as int]@);
                assert(ancestor(d, n, (count + 1) as nat) == ancestor(d, n, count as nat + 1));
            }
            match doc.nodes[cur].parent {
                Some(p) => {
                    proof {
                        assert(d[cur as int].parent == Some(p));
                        assert(ancestor(d, n, count as nat + 1) == Some(p.index as int));
                        if count == k {
                            assert(ancestor(d, n, k + 1) is Some);
                        }
                        lemma_ancestor_valid(d, n, (count + 1) as nat);
                    }
                    cur = p.index;
                    count = count + 1;
                },
                None => {
                    proof {
                        assert(d[cur as int].parent is None);
                        assert(ancestor(d, n, count as nat + 1) is None);
                        assert(is_depth(d, n, count as nat));
                    }
                    return count;
                },
            }
        }
    }
}

/// Every node reached from `cs` through child lists lies fewer than `fuel`
/// levels down: the subtrees below `cs` are finite.
pub open spec fn bounded(d: Seq<NodeView>, cs: Seq<NodeRef>, fuel: nat) -> bool
    decreases fuel, cs.len(),
{
    if cs.len() == 0 {
        true
    } else if fuel == 0 {
        false
    } else {
        &&& bounded(d, d[cs[0].index as int].children, (fuel - 1) as nat)
        &&& bounded(d, cs.drop_first(), fuel)
    }
}

/// The subtree below `node` is finite (no cycle is reachable from it).
pub open spec fn finite_below(d: Seq<NodeView>, node: NodeRef) -> bool {
    exists|h: nat| bounded(d, seq![node], h)
}

/// The nodes of the subtrees below `cs` whose tag is `tag`, in pre-order,
/// walking at most `fuel` levels.
pub open spec fn matches_in(d: Seq<NodeView>, cs: Seq<NodeRef>, tag: Seq<char>, fuel: nat) -> Seq<NodeRef>
    decreases fuel, cs.len(),
{
    if cs.len() == 0 || fuel == 0 {
        Seq::empty()
    } else {
        let c = cs[0];
        let here: Seq<NodeRef> = if d[c.index as int].tag == tag { seq![c] } else { Seq::empty() };
        here + matches_in(d, d[c.index as int].children, tag, (fuel - 1) as nat) + matches_in(
            d,
            cs.drop_first(),
            tag,
            fuel,
        )
    }
}

/// The nodes of the subtree rooted at `node` (the node included) whose tag
/// is `tag`, in pre-order.
pub open spec fn find_spec(d: Seq<NodeView>, node: NodeRef, tag: Seq<char>) -> Seq<NodeRef> {
    matches_in(d, seq![node], tag, choose|h: nat| bounded(d, seq![node], h))
}

proof fn lemma_bounded_append(d: Seq<NodeView>, a: Seq<NodeRef>, b: Seq<NodeRef>, fuel: nat)
    ensures
        bounded(d, a + b, fuel) == (bounded(d, a, fuel) && bounded(d, b, fuel)),
    decreases a.len(),
{
    if a.len() == 0 {
        assert(a + b =~= b);
    } else {
        assert((a + b).drop_first() =~= a.drop_first() + b);
        assert((a + b)[0] == a[0]);
        lemma_bounded_append(d, a.drop_first(), b, fuel);
    }
}

proof fn lemma_matches_append(d: Seq<NodeView>, a: Seq<NodeRef>, b: Seq<NodeRef>, tag: Seq<char>, fuel: nat)
    ensures
        matches_in(d, a + b, tag, fuel) == matches_in(d, a, tag, fuel) + matches_in(d, b, tag, fuel),
    decreases a.len(),
{
    if a.len() == 0 {
        assert(a + b =~= b);
        assert(matches_in(d, a, tag, fuel) =~= Seq::<NodeRef>::empty());
        assert(matches_in(d, b, tag, fuel) =~= Seq::<NodeRef>::empty() + matches_in(d, b, tag, fuel));
    } else if fuel == 0 {
        assert(matches_in(d, a + b, tag, fuel) =~= Seq::<NodeRef>::empty() + Seq::<NodeRef>::empty());
    } else {
        assert((a + b).drop_first() =~= a.drop_first() + b);
        assert((a + b)[0] == a[0]);
        lemma_matches_append(d, a.drop_first(), b, tag, fuel);
        let c = a[0];
        let here: Seq<NodeRef> = if d[c.index as int].tag == tag { seq![c] } else { Seq::empty() };
        let below = matches_in(d, d[c.index as int].children, tag, (fuel - 1) as nat);
        assert(matches_in(d, a + b, tag, fuel) == here + below + matches_in(d, a.drop_first() + b, tag, fuel));
        assert(matches_in(d, a + b, tag, fuel) =~= (here + below + matches_in(d, a.drop_first(), tag, fuel))
            + matches_in(d, b, tag, fuel));
    }
}

proof fn lemma_matches_fuel(d: Seq<NodeView>, cs: Seq<NodeRef>, tag: Seq<char>, h1: nat, h2: nat)
    requires
        bounded(d, cs, h1),
        h1 <= h2,
    ensures
        bounded(d, cs, h2),
        matches_in(d, cs, tag, h1) == matches_in(d, cs, tag, h2),
    decreases h1, cs.len(),
{
    if cs.len() > 0 {
        lemma_matches_fuel(d, d[cs[0].index as int].children, tag, (h1 - 1) as nat, (h2 - 1) as nat);
        lemma_matches_fuel(d, cs.drop_first(), tag, h1, h2);
    }
}

/// Splits a bounded child list around position `i`.
proof fn lemma_bounded_split(d: Seq<NodeView>, cs: Seq<NodeRef>, i: int, fuel: nat)
    requires
        bounded(d, cs, fuel),
        0 <= i < cs.len(),
    ensures
        bounded(d, seq![cs[i]], fuel),
        cs.take(i + 1) == cs.take(i) + seq![cs[i]],
{
    assert(cs =~= cs.take(i) + (seq![cs[i]] + cs.skip(i + 1)));
    lemma_bounded_append(d, cs.take(i), seq![cs[i]] + cs.skip(i + 1), fuel);
    lemma_bounded_append(d, seq![cs[i]], cs.skip(i + 1), fuel);
    assert(cs.take(i + 1) =~= cs.take(i) + seq![cs[i]]);
}

fn collect_matches(doc: &Document, node: NodeRef, tag: &String, out: &mut Vec<NodeRef>, Ghost(h): Ghost<nat>)
    requires
        links_valid(doc@),
        valid_ref(doc@, node),
        bounded(doc@, seq![node], h),
    ensures
        final(out)@ == old(out)@ + matches_in(doc@, seq![node], tag@, h),
    decreases h,
{
    let ghost d = doc@;
    let ghost start = out@;
    proof {
        assert(d[node.index as int] == doc.nodes@[node.index as int]@);
        assert(seq![node].drop_first() =~= Seq::<NodeRef>::empty());
    }
    let ghost cs = d[node.index as int].children;
    let ghost here: Seq<NodeRef> = if d[node.index as int].tag == tag@ { seq![node] } else { Seq::empty() };
    if doc.nodes[node.index].tag == *tag {
        out.push(node);
    }
    proof {
        assert(out@ =~= start + here);
    }
    let children = &doc.nodes[node.index].children;
    let n = children.len();
    let mut i: usize = 0;
    proof {
        assert(cs.take(0) =~= Seq::<NodeRef>::empty());
        assert(out@ =~= start + here + matches_in(d, cs.take(0), tag@, (h - 1) as nat));
    }
    while i < n
        invariant
            d == doc@,
            links_valid(d),
            valid_ref(d, node),
            h > 0,
            children@ == cs,
            cs == d[node.index as int].children,
            n == cs.len(),
            0 <= i <= n,
            bounded(d, cs, (h - 1) as nat),
            out@ == start + here + matches_in(d, cs.take(i as int), tag@, (h - 1) as nat),
        decreases n - i,
    {
        proof {
            lemma_bounded_split(d, cs, i as int, (h - 1) as nat);
            lemma_matches_append(d, cs.take(i as int), seq![cs[i as int]], tag@, (h - 1) as nat);
            lemma_node_links(d, node.index as int);
        }
        collect_matches(doc, children[i], tag, out, Ghost((h - 1) as nat));
        i = i + 1;
    }
    proof {
        assert(cs.take(n as int) =~= cs);
        assert(matches_in(d, seq![node], tag@, h) == here + matches_in(d, cs, tag@, (h - 1) as nat)
            + matches_in(d, Seq::<NodeRef>::empty(), tag@, h));
        assert(out@ =~= start + matches_in(d, seq![node], tag@, h));
    }
}

impl Node {
    /// The nodes of the subtree rooted at `node` whose tag is `tag`, in
    /// pre-order (a node before its children, children in order).
    pub fn find_by_tag(doc: &Document, node: NodeRef, tag: &str) -> (r: Vec<NodeRef>)
        requires
            links_valid(doc@),
            valid_ref(doc@, node),
            finite_below(doc@, node),
        ensures
            r@ == find_spec(doc@, node, tag@),
    {
        let ghost h = choose|h: nat| bounded(doc@, seq![node], h);
        let t = String::from_str(tag);
        let mut out: Vec<NodeRef> = Vec::new();
        collect_matches(doc, node, &t, &mut out, Ghost(h));
        proof {
            assert(out@ =~= find_spec(doc@, node, tag@));
        }
        out
    }
}

/// `n` levels of two-space indentation.
pub open spec fn indent(n: nat) -> Seq<char>
    decreases n,
{
    if n == 0 {
        Seq::empty()
    } else {
        indent((n - 1) as nat) + seq![' ', ' ']
    }
}

/// The attributes as they stand inside an opening tag: ` key="value"` each,
/// in order.
pub open spec fn attribute_text(attrs: Seq<(Seq<char>, Seq<char>)>) -> Seq<char>
    decreases attrs.len(),
{
    if attrs.len() == 0 {
        Seq::empty()
    } else {
        attribute_text(attrs.drop_last()) + seq![' '] + attrs.last().0 + seq!['=', '"']
            + attrs.last().1 + seq!['"']
    }
}

pub open spec fn text_or_empty(t: Option<Seq<char>>) -> Seq<char> {
    match t {
        Some(s) => s,
        None => Seq::empty(),
    }
}

/// What the rendering of a node writes before its children: the indented
/// opening tag, then either the text (a node without children) or a line
/// break and, when there is text, the text on its own indented line.
pub open spec fn node_head(d: Seq<NodeView>, c: NodeRef) -> Seq<char> {
    let n = d[c.index as int];
    let dep = depth_of(d, c.index as int);
    let open = indent(dep) + seq!['<'] + n.tag + attribute_text(n.attributes) + seq!['>'];
    let text = text_or_empty(n.text);
    if n.children.len() > 0 {
        open + seq!['\n'] + (if text.len() > 0 {
            indent(dep as nat + 1) + text + seq!['\n']
        } else {
            Seq::empty()
        })
    } else {
        open + text
    }
}

/// What the rendering of a node writes after its children: the closing tag
/// (indented when there are children) and a line break.
pub open spec fn node_tail(d: Seq<NodeView>, c: NodeRef) -> Seq<char> {
    let n = d[c.index as int];
    (if n.children.len() > 0 {
        indent(depth_of(d, c.index as int))
    } else {
        Seq::empty()
    }) + seq!['<', '/'] + n.tag + seq!['>', '\n']
}

/// The rendering of the subtrees below `cs`, one after the other, walking at
/// most `fuel` levels.
pub open spec fn render_in(d: Seq<NodeView>, cs: Seq<NodeRef>, fuel: nat) -> Seq<char>
    decreases fuel, cs.len(),
{
    if cs.len() == 0 || fuel == 0 {
        Seq::empty()
    } else {
        node_head(d, cs[0]) + render_in(d, d[cs[0].index as int].children, (fuel - 1) as nat)
            + node_tail(d, cs[0]) + render_in(d, cs.drop_first(), fuel)
    }
}

/// The subtrees below `cs` are finite and every node in them has a parent
/// chain that ends, so that its indentation is defined.
pub open spec fn renderable(d: Seq<NodeView>, cs: Seq<NodeRef>, fuel: nat) -> bool
    decreases fuel, cs.len(),
{
    if cs.len() == 0 {
        true
    } else if fuel == 0 {
        false
    } else {
        &&& reaches_root(d, cs[0].index as int)
        &&& renderable(d, d[cs[0].index as int].children, (fuel - 1) as nat)
        &&& renderable(d, cs.drop_first(), fuel)
    }
}

/// The subtree rooted at `node` can be rendered.
pub open spec fn can_render(d: Seq<NodeView>, node: NodeRef) -> bool {
    exists|h: nat| renderable(d, seq![node], h)
}

/// The indented HTML rendering of the subtree rooted at `node`.
pub open spec fn render_spec(d: Seq<NodeView>, node: NodeRef) -> Seq<char> {
    render_in(d, seq![node], choose|h: nat| renderable(d, seq![node], h))
}

proof fn lemma_renderable_append(d: Seq<NodeView>, a: Seq<NodeRef>, b: Seq<NodeRef>, fuel: nat)
    ensures
        renderable(d, a + b, fuel) == (renderable(d, a, fuel) && renderable(d, b, fuel)),
    decreases a.len(),
{
    if a.len() == 0 {
        assert(a + b =~= b);
    } else {
        assert((a + b).drop_first() =~= a.drop_first() + b);
        assert((a + b)[0] == a[0]);
        lemma_renderable_append(d, a.drop_first(), b, fuel);
    }
}

proof fn lemma_render_append(d: Seq<NodeView>, a: Seq<NodeRef>, b: Seq<NodeRef>, fuel: nat)
    ensures
        render_in(d, a + b, fuel) == render_in(d, a, fuel) + render_in(d, b, fuel),
    decreases a.len(),
{
    if a.len() == 0 {
        assert(a + b =~= b);
        assert(render_in(d, a, fuel) =~= Seq::<char>::empty());
        assert(render_in(d, b, fuel) =~= Seq::<char>::empty() + render_in(d, b, fuel));
    } else if fuel == 0 {
        assert(render_in(d, a + b, fuel) =~= Seq::<char>::empty() + Seq::<char>::empty());
    } else {
        assert((a + b).drop_first() =~= a.drop_first() + b);
        assert((a + b)[0] == a[0]);
        lemma_render_append(d, a.drop_first(), b, fuel);
        let c = a[0];
        let head = node_head(d, c);
        let below = render_in(d, d[c.index as int].children, (fuel - 1) as nat);
        let tail = node_tail(d, c);
        assert(render_in(d, a + b, fuel) == head + below + tail + render_in(d, a.drop_first() + b, fuel));
        assert(render_in(d, a + b, fuel) =~= (head + below + tail + render_in(d, a.drop_first(), fuel))
            + render_in(d, b, fuel));
    }
}

proof fn lemma_render_fuel(d: Seq<NodeView>, cs: Seq<NodeRef>, h1: nat, h2: nat)
    requires
        renderable(d, cs, h1),
        h1 <= h2,
    ensures
        renderable(d, cs, h2),
        render_in(d, cs, h1) == render_in(d, cs, h2),
    decreases h1, cs.len(),
{
    if cs.len() > 0 {
        lemma_render_fuel(d, d[cs[0].index as int].children, (h1 - 1) as nat, (h2 - 1) as nat);
        lemma_render_fuel(d, cs.drop_first(), h1, h2);
    }
}

proof fn lemma_renderable_split(d: Seq<NodeView>, cs: Seq<NodeRef>, i: int, fuel: nat)
    requires
        renderable(d, cs, fuel),
        0 <= i < cs.len(),
    ensures
        renderable(d, seq![cs[i]], fuel),
        cs.take(i + 1) == cs.take(i) + seq![cs[i]],
{
    assert(cs =~= cs.take(i) + (seq![cs[i]] + cs.skip(i + 1)));
    lemma_renderable_append(d, cs.take(i), seq![cs[i]] + cs.skip(i + 1), fuel);
    lemma_renderable_append(d, seq![cs[i]], cs.skip(i + 1), fuel);
    assert(cs.take(i + 1) =~= cs.take(i) + seq![cs[i]]);
}

fn push_indent(out: &mut String, n: usize)
    ensures
        final(out)@ == old(out)@ + indent(n as nat),
        final(out)@.len() == old(out)@.len() + 2 * n,
        forall|i: int| old(out)@.len() <= i < final(out)@.len() ==> #[trigger] final(out)@[i] == ' ',
{
    proof {
        lemma_indent_is_spaces(n as nat);
    }
    let mut i: usize = 0;
    proof {
        assert(out@ =~= old(out)@ + indent(0));
    }
    while i < n
        invariant
            0 <= i <= n,
            out@ == old(out)@ + indent(i as nat),
        decreases n - i,
    {
        push_char(out, ' ');
        push_char(out, ' ');
        proof {
            assert(indent((i + 1) as nat) == indent(i as nat) + seq![' ', ' ']);
            assert(out@ =~= old(out)@ + indent((i + 1) as nat));
        }
        i = i + 1;
    }
}

fn push_attributes(out: &mut String, attrs: &Vec<(String, String)>)
    ensures
        final(out)@ == old(out)@ + attribute_text(attrs@.map_values(|p: (String, String)| attribute_view(p))),
{
    let ghost view = attrs@.map_values(|p: (String, String)| attribute_view(p));
    let n = attrs.len();
    let mut i: usize = 0;
    proof {
        assert(view.take(0) =~= Seq::<(Seq<char>, Seq<char>)>::empty());
        assert(out@ =~= old(out)@ + attribute_text(view.take(0)));
    }
    while i < n
        invariant
            n == attrs.len(),
            view == attrs@.map_values(|p: (String, String)| attribute_view(p)),
            0 <= i <= n,
            out@ == old(out)@ + attribute_text(view.take(i as int)),
        decreases n - i,
    {
        let ghost before = out@;
        push_char(out, ' ');
        out.append(attrs[i].0.as_str());
        push_char(out, '=');
        push_char(out, '"');
        out.append(attrs[i].1.as_str());
        push_char(out, '"');
        proof {
            let t = view.take(i + 1);
            assert(t.drop_last() =~= view.take(i as int));
            assert(t.last() == attribute_view(attrs@[i as int]));
            assert(out@ =~= before + seq![' '] + attrs@[i as int].0@ + seq!['=', '"'] + attrs@[i as int].1@ + seq!['"']);
            assert(out@ =~= old(out)@ + attribute_text(t));
        }
        i = i + 1;
    }
    proof {
        assert(view.take(n as int) =~= view);
    }
}

fn write_head(n: &Node, dep: usize, out: &mut String)
    requires
        dep < usize::MAX,
    ensures
        final(out)@ == old(out)@ + ({
            let nv = n@;
            let open = indent(dep as nat) + seq!['<'] + nv.tag + attribute_text(nv.attributes) + seq!['>'];
            let text = text_or_empty(nv.text);
            if nv.children.len() > 0 {
                open + seq!['\n'] + (if text.len() > 0 {
                    indent(dep as nat + 1) + text + seq!['\n']
                } else {
                    Seq::empty()
                })
            } else {
                open + text
            }
        }),
{
    let ghost start = out@;
    let ghost nv = n@;
    push_indent(out, dep);
    push_char(out, '<');
    out.append(n.tag.as_str());
    push_attributes(out, &n.attributes);
    push_char(out, '>');
    let ghost open = indent(dep as nat) + seq!['<'] + nv.tag + attribute_text(nv.attributes) + seq!['>'];
    proof {
        assert(out@ =~= start + open);
    }
    let has_text = match &n.text {
        Some(t) => !t.as_str().is_empty(),
        None => false,
    };
    let ghost text = text_or_empty(nv.text);
    if n.children.len() > 0 {
        push_char(out, '\n');
        if has_text {
            push_indent(out, dep + 1);
            match &n.text {
                Some(t) => out.append(t.as_str()),
                None => {},
            }
            push_char(out, '\n');
            proof {
                assert(out@ =~= start + open + seq!['\n'] + (indent(dep as nat + 1) + text + seq!['\n']));
            }
        } else {
            proof {
                assert(out@ =~= start + open + seq!['\n'] + Seq::<char>::empty());
            }
        }
    } else {
        match &n.text {
            Some(t) => out.append(t.as_str()),
            None => {},
        }
        proof {
            assert(out@ =~= start + open + text);
        }
    }
}

fn write_tail(n: &Node, dep: usize, out: &mut String)
    ensures
        final(out)@ == old(out)@ + (if n@.children.len() > 0 {
            indent(dep as nat)
        } else {
            Seq::empty()
        }) + seq!['<', '/'] + n@.tag + seq!['>', '\n'],
{
    let ghost start = out@;
    if n.children.len() > 0 {
        push_indent(out, dep);
    }
    let ghost mid = out@;
    push_char(out, '<');
    push_char(out, '/');
    out.append(n.tag.as_str());
    push_char(out, '>');
    push_char(out, '\n');
    proof {
        assert(out@ =~= mid + seq!['<', '/'] + n@.tag + seq!['>', '\n']);
        if n@.children.len() > 0 {
            assert(mid =~= start + indent(dep as nat));
        } else {
            assert(mid =~= start + Seq::<char>::empty());
        }
    }
}

fn render_children(doc: &Document, node: NodeRef, out: &mut String, Ghost(h): Ghost<nat>)
    requires
        links_valid(doc@),
        valid_ref(doc@, node),
        h > 0,
        renderable(doc@, doc@[node.index as int].children, (h - 1) as nat),
    ensures
        final(out)@ == old(out)@ + render_in(doc@, doc@[node.index as int].children, (h - 1) as nat),
    decreases h, 0nat,
{
    let ghost d = doc@;
    let ghost cs = d[node.index as int].children;
    proof {
        assert(d[node.index as int] == doc.nodes@[node.index as int]@);
    }
    let children = &doc.nodes[node.index].children;
    let cs_len = children.len();
    let mut i: usize = 0;
    proof {
        assert(cs.take(0) =~= Seq::<NodeRef>::empty());
        assert(out@ =~= old(out)@ + render_in(d, cs.take(0), (h - 1) as nat));
    }
    while i < cs_len
        invariant
            d == doc@,
            links_valid(d),
            valid_ref(d, node),
            h > 0,
            children@ == cs,
            cs == d[node.index as int].children,
            cs_len == cs.len(),
            0 <= i <= cs_len,
            renderable(d, cs, (h - 1) as nat),
            out@ == old(out)@ + render_in(d, cs.take(i as int), (h - 1) as nat),
        decreases cs_len - i,
    {
        proof {
            lemma_renderable_split(d, cs, i as int, (h - 1) as nat);
            lemma_render_append(d, cs.take(i as int), seq![cs[i as int]], (h - 1) as nat);
            lemma_node_links(d, node.index as int);
            assert(valid_ref(d, d[node.index as int].children[i as int]));
        }
        render_into(doc, children[i], out, Ghost((h - 1) as nat));
        i = i + 1;
    }
    proof {
        assert(cs.take(cs_len as int) =~= cs);
    }
}

fn render_into(doc: &Document, node: NodeRef, out: &mut String, Ghost(h): Ghost<nat>)
    requires
        links_valid(doc@),
        valid_ref(doc@, node),
        renderable(doc@, seq![node], h),
    ensures
        final(out)@ == old(out)@ + render_in(doc@, seq![node], h),
    decreases h, 1nat,
{
    let ghost d = doc@;
    let ghost start = out@;
    let total = doc.nodes.len();
    proof {
        assert(d[node.index as int] == doc.nodes@[node.index as int]@);
        assert(seq![node].drop_first() =~= Seq::<NodeRef>::empty());
        lemma_depth(d, node.index as int);
        assert(d.len() == total);
    }
    let dep = Node::depth(doc, node);
    let n = &doc.nodes[node.index];
    write_head(n, dep, out);
    let ghost after_head = out@;
    render_children(doc, node, out, Ghost(h));
    let ghost after_children = out@;
    write_tail(n, dep, out);
    proof {
        let below = render_in(d, d[node.index as int].children, (h - 1) as nat);
        assert(after_head == start + node_head(d, node));
        assert(out@ == after_children + node_tail(d, node));
        assert(render_in(d, seq![node], h) == node_head(d, node) + below + node_tail(d, node)
            + render_in(d, Seq::<NodeRef>::empty(), h));
        assert(out@ =~= start + render_in(d, seq![node], h));
    }
}

impl Node {
    /// The subtree rooted at `node` as indented HTML: each node on its own
    /// line, indented by two spaces per ancestor, with its attributes in the
    /// opening tag.
    pub fn render(doc: &Document, node: NodeRef) -> (r: String)
        requires
            links_valid(doc@),
            valid_ref(doc@, node),
            can_render(doc@, node),
        ensures
            r@ == render_spec(doc@, node),
            r@.len() > 2 * depth_of(doc@, node.index as int),
            forall|i: int| 0 <= i < 2 * depth_of(doc@, node.index as int) ==> #[trigger] r@[i] == ' ',
            r@[2 * depth_of(doc@, node.index as int) as int] == '<',
    {
        proof {
            lemma_render_indentation(doc@, node);
        }
        let ghost h = choose|h: nat| renderable(doc@, seq![node], h);
        let mut out = String::new();
        render_into(doc, node, &mut out, Ghost(h));
        proof {
            assert(out@ =~= render_spec(doc@, node));
        }
        out
    }
}

/// Setting an attribute and then reading it gives back the value set; every
/// other key keeps its value.
pub proof fn lemma_attribute_set_get(
    attrs: Seq<(Seq<char>, Seq<char>)>,
    key: Seq<char>,
    value: Seq<char>,
    other: Seq<char>,
)
    ensures
        attribute_lookup(attribute_set(attrs, key, value), key) == Some(value),
        other != key ==> attribute_lookup(attribute_set(attrs, key, value), other) == attribute_lookup(
            attrs,
            other,
        ),
{
    let s = attribute_set(attrs, key, value);
    lemma_attribute_position(attrs, key);
    lemma_attribute_position(attrs, other);
    lemma_attribute_position(s, key);
    lemma_attribute_position(s, other);
    match attribute_position(attrs, key) {
        Some(i) => {
            lemma_attribute_position_at(s, key, i);
            if other != key {
                match attribute_position(attrs, other) {
                    Some(j) => {
                        assert(s[j] == attrs[j]);
                        assert forall|t: int| 0 <= t < j implies (#[trigger] s[t]).0 != other by {
                            assert(attrs[t].0 != other);
                        }
                        lemma_attribute_position_at(s, other, j);
                    },
                    None => {
                        assert(s[i].0 != other);
                        assert forall|t: int| 0 <= t < s.len() implies s[t].0 != other by {
                            if t != i {
                                assert(s[t] == attrs[t]);
                            }
                        }
                    },
                }
            }
        },
        None => {
            lemma_attribute_position_at(s, key, attrs.len() as int);
            if other != key {
                match attribute_position(attrs, other) {
                    Some(j) => {
                        assert(s[j] == attrs[j]);
                        assert forall|t: int| 0 <= t < j implies (#[trigger] s[t]).0 != other by {
                            assert(attrs[t].0 != other);
                        }
                        lemma_attribute_position_at(s, other, j);
                    },
                    None => {
                        assert forall|t: int| 0 <= t < s.len() implies s[t].0 != other by {
                            if t < attrs.len() {
                                assert(s[t] == attrs[t]);
                            }
                        }
                    },
                }
            }
        },
    }
}

/// `add_child` sets the back-reference: the child's parent is the parent,
/// and the child is the last of the parent's children.
pub proof fn lemma_add_child_links(d: Seq<NodeView>, parent: NodeRef, child: NodeRef)
    requires
        valid_ref(d, parent),
        valid_ref(d, child),
    ensures
        add_child_spec(d, parent, child)[child.index as int].parent == Some(parent),
        add_child_spec(d, parent, child)[parent.index as int].children.last() == child,
        add_child_spec(d, parent, child).len() == d.len(),
{
}

/// Removing a child that `add_child` has just attached to a detached node
/// gives back the document as it was.
pub proof fn lemma_remove_undoes_add(d: Seq<NodeView>, parent: NodeRef, child: NodeRef)
    requires
        valid_ref(d, parent),
        valid_ref(d, child),
        !d[parent.index as int].children.contains(child),
        d[child.index as int].parent is None,
    ensures
        remove_child_spec(add_child_spec(d, parent, child), parent, child) == d,
{
    let p = parent.index as int;
    let c = child.index as int;
    let d1 = add_child_spec(d, parent, child);
    let old_children = d[p].children;
    assert(d1[p].children == old_children.push(child));
    assert forall|j: int| 0 <= j < old_children.len() implies old_children.push(child)[j] != child by {
        assert(old_children.push(child)[j] == old_children[j]);
        if old_children[j] == child {
            assert(old_children.contains(child));
        }
    }
    lemma_child_position_at(old_children.push(child), child, old_children.len() as int);
    assert(old_children.push(child).remove(old_children.len() as int) =~= old_children);
    let d2 = remove_child_spec(d1, parent, child);
    assert forall|i: int| 0 <= i < d.len() implies d2[i] == d[i] by {
        if i == p || i == c {
            assert(d2[i] =~= d[i]);
        }
    }
    assert(d2 =~= d);
}

/// A node without a parent has depth zero.
pub proof fn lemma_root_depth(d: Seq<NodeView>, n: NodeRef)
    requires
        valid_ref(d, n),
        d[n.index as int].parent is None,
    ensures
        reaches_root(d, n.index as int),
        depth_of(d, n.index as int) == 0,
{
    let i = n.index as int;
    assert(ancestor(d, i, 0) == Some(i));
    assert(ancestor(d, i, 1) is None);
    assert(is_depth(d, i, 0));
    lemma_depth_unique(d, i, depth_of(d, i), 0);
}

proof fn lemma_ancestor_unchanged(d: Seq<NodeView>, parent: NodeRef, child: NodeRef, n: int, k: nat)
    requires
        valid_ref(d, parent),
        valid_ref(d, child),
        links_valid(d),
        0 <= n < d.len(),
        forall|j: nat| j < k ==> ancestor(d, n, j) != Some(child.index as int),
    ensures
        ancestor(add_child_spec(d, parent, child), n, k) == ancestor(d, n, k),
    decreases k,
{
    if k > 0 {
        lemma_ancestor_unchanged(d, parent, child, n, (k - 1) as nat);
        lemma_ancestor_valid(d, n, (k - 1) as nat);
        let d1 = add_child_spec(d, parent, child);
        if let Some(a) = ancestor(d, n, (k - 1) as nat) {
            assert(a != child.index);
            assert(d1[a].parent == d[a].parent);
        }
    }
}

/// Attaching a child under a node whose parent chain ends, and which does
/// not have the child among its ancestors, puts the child one level below
/// that node.
pub proof fn lemma_add_child_depth(d: Seq<NodeView>, parent: NodeRef, child: NodeRef)
    requires
        links_valid(d),
        valid_ref(d, parent),
        valid_ref(d, child),
        reaches_root(d, parent.index as int),
        forall|k: nat| ancestor(d, parent.index as int, k) != Some(child.index as int),
    ensures
        reaches_root(add_child_spec(d, parent, child), child.index as int),
        depth_of(add_child_spec(d, parent, child), child.index as int) == depth_of(d, parent.index as int) + 1,
{
    let d1 = add_child_spec(d, parent, child);
    let p = parent.index as int;
    let c = child.index as int;
    lemma_depth(d, p);
    let kp = depth_of(d, p);
    lemma_ancestor_unchanged(d, parent, child, p, kp);
    lemma_ancestor_unchanged(d, parent, child, p, kp + 1);
    lemma_ancestor_unchanged(d, parent, child, p, kp + 2);
    assert(ancestor(d1, c, 0) == Some(c));
    assert(d1[c].parent == Some(parent));
    assert(ancestor(d1, c, 1) == Some(p));
    assert(ancestor(d1, p, 0) == Some(p));
    assert(ancestor(d1, c, 1) == ancestor(d1, p, 0));
    lemma_ancestor_shift(d1, c, p, 1, 0, kp);
    lemma_ancestor_shift(d1, c, p, 1, 0, kp + 1);
    assert(ancestor(d1, c, 1 + kp) == ancestor(d1, p, 0 + kp));
    assert(ancestor(d1, c, 1 + (kp + 1)) == ancestor(d1, p, 0 + (kp + 1)));
    assert(is_depth(d1, c, kp + 1));
    assert(ancestor(d1, c, kp + 2) is None);
    assert(reaches_root(d1, c));
    assert(links_valid(d1)) by {
        assert forall|i: int| 0 <= i < d1.len() implies {
            &&& (#[trigger] d1[i]).parent matches Some(q) ==> valid_ref(d1, q)
            &&& forall|j: int| 0 <= j < d1[i].children.len() ==> valid_ref(d1, #[trigger] d1[i].children[j])
        } by {
            if i == p {
                assert forall|j: int| 0 <= j < d1[i].children.len() implies valid_ref(d1, #[trigger] d1[i].children[j]) by {
                    if j < d[i].children.len() {
                        assert(d1[i].children[j] == d[i].children[j]);
                    }
                }
            }
        }
    }
    lemma_depth(d1, c);
}

proof fn lemma_matches_have_tag(d: Seq<NodeView>, cs: Seq<NodeRef>, tag: Seq<char>, fuel: nat)
    ensures
        forall|i: int|
            0 <= i < matches_in(d, cs, tag, fuel).len() ==> d[(#[trigger] matches_in(d, cs, tag, fuel)[i]).index as int].tag
                == tag,
    decreases fuel, cs.len(),
{
    if cs.len() > 0 && fuel > 0 {
        lemma_matches_have_tag(d, d[cs[0].index as int].children, tag, (fuel - 1) as nat);
        lemma_matches_have_tag(d, cs.drop_first(), tag, fuel);
    }
}

/// Every node that `find_by_tag` returns has the tag searched for, and the
/// node searched from comes first when it has that tag itself.
pub proof fn lemma_find_by_tag_sound(d: Seq<NodeView>, node: NodeRef, tag: Seq<char>)
    requires
        finite_below(d, node),
    ensures
        forall|i: int| 0 <= i < find_spec(d, node, tag).len() ==> d[(#[trigger] find_spec(d, node, tag)[i]).index as int].tag == tag,
        d[node.index as int].tag == tag ==> find_spec(d, node, tag).len() > 0 && find_spec(d, node, tag)[0] == node,
{
    let h = choose|h: nat| bounded(d, seq![node], h);
    lemma_matches_have_tag(d, seq![node], tag, h);
}

proof fn lemma_renderable_single(d: Seq<NodeView>, c: NodeRef, fuel: nat)
    ensures
        renderable(d, seq![c], fuel) == (fuel > 0 && reaches_root(d, c.index as int) && renderable(
            d,
            d[c.index as int].children,
            (fuel - 1) as nat,
        )),
{
    assert(seq![c].drop_first() =~= Seq::<NodeRef>::empty());
    assert(renderable(d, Seq::<NodeRef>::empty(), fuel));
}

proof fn lemma_renderable_bounded(d: Seq<NodeView>, cs: Seq<NodeRef>, fuel: nat)
    requires
        renderable(d, cs, fuel),
    ensures
        bounded(d, cs, fuel),
    decreases fuel, cs.len(),
{
    if cs.len() > 0 {
        lemma_renderable_bounded(d, d[cs[0].index as int].children, (fuel - 1) as nat);
        lemma_renderable_bounded(d, cs.drop_first(), fuel);
    }
}

impl Node {
    /// Whether the parent chain of `node` ends (it does unless it runs into
    /// a cycle).
    pub fn parent_chain_ends(doc: &Document, node: NodeRef) -> (r: bool)
        requires
            links_valid(doc@),
            valid_ref(doc@, node),
        ensures
            r == reaches_root(doc@, node.index as int),
    {
        let ghost d = doc@;
        let ghost n = node.index as int;
        let total = doc.nodes.len();
        let mut steps: usize = 0;
        let mut cur: usize = node.index;
        proof {
            assert(ancestor(d, n, 0) == Some(n));
        }
        while steps < total
            invariant
                d == doc@,
                n == node.index,
                total == d.len(),
                links_valid(d),
                0 <= n < d.len(),
                0 <= steps <= total,
                ancestor(d, n, steps as nat) == Some(cur as int),
                cur < d.len(),
            decreases total - steps,
        {
            proof {
                assert(d[cur as int] == doc.nodes@[cur as int]@);
                assert(ancestor(d, n, (steps + 1) as nat) == ancestor(d, n, steps as nat + 1));
            }
            match doc.nodes[cur].parent {
                Some(p) => {
                    proof {
                        assert(ancestor(d, n, steps as nat + 1) == Some(p.index as int));
                        lemma_ancestor_valid(d, n, (steps + 1) as nat);
                    }
                    cur = p.index;
                    steps = steps + 1;
                },
                None => {
                    proof {
                        assert(ancestor(d, n, steps as nat + 1) is None);
                    }
                    return true;
                },
            }
        }
        proof {
            if reaches_root(d, n) {
                lemma_depth(d, n);
                let k = depth_of(d, n);
                lemma_ancestor_none_stays(d, n, k + 1, (total - k - 1) as nat);
            }
        }
        false
    }
}

fn renderable_node(doc: &Document, node: NodeRef, fuel: u128) -> (r: bool)
    requires
        links_valid(doc@),
        valid_ref(doc@, node),
    ensures
        r == renderable(doc@, seq![node], fuel as nat),
    decreases fuel,
{
    let ghost d = doc@;
    proof {
        lemma_renderable_single(d, node, fuel as nat);
        assert(d[node.index as int] == doc.nodes@[node.index as int]@);
    }
    if fuel == 0 {
        return false;
    }
    if !Node::parent_chain_ends(doc, node) {
        return false;
    }
    let ghost cs = d[node.index as int].children;
    let children = &doc.nodes[node.index].children;
    let n = children.len();
    let mut i: usize = 0;
    proof {
        assert(cs.take(0) =~= Seq::<NodeRef>::empty());
    }
    while i < n
        invariant
            d == doc@,
            links_valid(d),
            valid_ref(d, node),
            fuel > 0,
            children@ == cs,
            cs == d[node.index as int].children,
            n == cs.len(),
            0 <= i <= n,
            renderable(d, cs.take(i as int), (fuel - 1) as nat),
        decreases n - i,
    {
        proof {
            assert(cs.take(i + 1) =~= cs.take(i as int) + seq![cs[i as int]]);
            lemma_renderable_append(d, cs.take(i as int), seq![cs[i as int]], (fuel - 1) as nat);
            lemma_node_links(d, node.index as int);
            assert(valid_ref(d, d[node.index as int].children[i as int]));
        }
        if !renderable_node(doc, children[i], fuel - 1) {
            proof {
                assert(cs =~= cs.take(i + 1) + cs.skip(i + 1));
                lemma_renderable_append(d, cs.take(i + 1), cs.skip(i + 1), (fuel - 1) as nat);
            }
            return false;
        }
        i = i + 1;
    }
    proof {
        assert(cs.take(n as int) =~= cs);
    }
    true
}

impl Node {
    /// Whether the subtree rooted at `node` lies within as many levels as
    /// the document has nodes and every node in it has a parent chain that
    /// ends.  When it does, `render` and `find_by_tag` may be called on it.
    pub fn subtree_is_renderable(doc: &Document, node: NodeRef) -> (r: bool)
        requires
            links_valid(doc@),
            valid_ref(doc@, node),
        ensures
            r == renderable(doc@, seq![node], doc@.len() + 1),
            r ==> can_render(doc@, node) && finite_below(doc@, node),
    {
        let total = doc.nodes.len();
        proof {
            assert(doc@.len() == total);
        }
        let r = renderable_node(doc, node, total as u128 + 1);
        proof {
            if r {
                lemma_renderable_bounded(doc@, seq![node], (total + 1) as nat);
            }
        }
        r
    }
}

/// Changing a node's tag, attributes or text keeps every link of the
/// document valid.
pub proof fn lemma_edit_keeps_links_valid(d: Seq<NodeView>, r: NodeRef, n: NodeView)
    requires
        links_valid(d),
        valid_ref(d, r),
        n.parent == d[r.index as int].parent,
        n.children == d[r.index as int].children,
    ensures
        links_valid(d.update(r.index as int, n)),
{
    let d1 = d.update(r.index as int, n);
    assert forall|i: int| 0 <= i < d1.len() implies {
        &&& (#[trigger] d1[i]).parent matches Some(p) ==> valid_ref(d1, p)
        &&& forall|j: int| 0 <= j < d1[i].children.len() ==> valid_ref(d1, #[trigger] d1[i].children[j])
    } by {
    }
}

/// The renderings of the nodes `cs`, one after the other.
pub open spec fn render_each(d: Seq<NodeView>, cs: Seq<NodeRef>) -> Seq<char>
    decreases cs.len(),
{
    if cs.len() == 0 {
        Seq::empty()
    } else {
        render_each(d, cs.drop_last()) + render_spec(d, cs.last())
    }
}

proof fn lemma_render_spec_at(d: Seq<NodeView>, c: NodeRef, h: nat)
    requires
        renderable(d, seq![c], h),
    ensures
        can_render(d, c),
        render_spec(d, c) == render_in(d, seq![c], h),
{
    let hc = choose|h: nat| renderable(d, seq![c], h);
    let m = if hc < h { h } else { hc };
    lemma_render_fuel(d, seq![c], hc, m);
    lemma_render_fuel(d, seq![c], h, m);
}

proof fn lemma_render_in_each(d: Seq<NodeView>, cs: Seq<NodeRef>, h: nat)
    requires
        renderable(d, cs, h),
    ensures
        render_in(d, cs, h) == render_each(d, cs),
        forall|i: int| 0 <= i < cs.len() ==> can_render(d, #[trigger] cs[i]),
    decreases cs.len(),
{
    if cs.len() > 0 {
        let last = cs.last();
        let front = cs.drop_last();
        assert(cs =~= front + seq![last]);
        lemma_renderable_append(d, front, seq![last], h);
        lemma_render_append(d, front, seq![last], h);
        lemma_render_in_each(d, front, h);
        lemma_render_spec_at(d, last, h);
        assert forall|i: int| 0 <= i < cs.len() implies can_render(d, #[trigger] cs[i]) by {
            if i < front.len() {
                assert(cs[i] == front[i]);
            }
        }
    }
}

/// Rendering a node writes its opening part, then the renderings of its
/// children one after the other, then its closing part.
pub proof fn lemma_render_unfolds(d: Seq<NodeView>, node: NodeRef)
    requires
        can_render(d, node),
    ensures
        forall|i: int| 0 <= i < d[node.index as int].children.len() ==> can_render(d, #[trigger] d[node.index as int].children[i]),
        render_spec(d, node) == node_head(d, node) + render_each(d, d[node.index as int].children) + node_tail(d, node),
{
    let h = choose|h: nat| renderable(d, seq![node], h);
    lemma_renderable_single(d, node, h);
    assert(seq![node].drop_first() =~= Seq::<NodeRef>::empty());
    lemma_render_in_each(d, d[node.index as int].children, (h - 1) as nat);
    assert(render_in(d, seq![node], h) == node_head(d, node) + render_in(d, d[node.index as int].children, (h - 1) as nat)
        + node_tail(d, node) + render_in(d, Seq::<NodeRef>::empty(), h));
    assert(render_spec(d, node) =~= node_head(d, node) + render_each(d, d[node.index as int].children) + node_tail(d, node));
}

/// The document is a well-linked forest: every listed child names its
/// lister as parent, every parent lists the node once, no child list holds
/// a node twice, and every parent chain ends.
pub open spec fn well_linked(d: Seq<NodeView>) -> bool {
    &&& links_valid(d)
    &&& forall|i: int, j: int|
        0 <= i < d.len() && 0 <= j < d[i].children.len() ==> d[(#[trigger] d[i].children[j]).index as int].parent
            == Some(NodeRef { index: i as usize })
    &&& forall|i: int|
        0 <= i < d.len() ==> ((#[trigger] d[i]).parent matches Some(p) ==> d[p.index as int].children.contains(
            NodeRef { index: i as usize },
        ))
    &&& forall|i: int| 0 <= i < d.len() ==> (#[trigger] d[i]).children.no_duplicates()
    &&& forall|i: int| 0 <= i < d.len() ==> #[trigger] reaches_root(d, i)
}

/// `add_child` changes only the parent's children and the child's parent.
pub proof fn lemma_add_child_frame(d: Seq<NodeView>, parent: NodeRef, child: NodeRef, x: int)
    requires
        valid_ref(d, parent),
        valid_ref(d, child),
        0 <= x < d.len(),
    ensures
        add_child_spec(d, parent, child).len() == d.len(),
        add_child_spec(d, parent, child)[x].tag == d[x].tag,
        add_child_spec(d, parent, child)[x].attributes == d[x].attributes,
        add_child_spec(d, parent, child)[x].text == d[x].text,
        add_child_spec(d, parent, child)[x].parent == if x == child.index {
            Some(parent)
        } else {
            d[x].parent
        },
        add_child_spec(d, parent, child)[x].children == if x == parent.index {
            d[x].children.push(child)
        } else {
            d[x].children
        },
{
}

/// `remove_child` changes only the parent's children and, when the child
/// was among them, the child's parent.
pub proof fn lemma_remove_child_frame(d: Seq<NodeView>, parent: NodeRef, child: NodeRef, x: int)
    requires
        valid_ref(d, parent),
        valid_ref(d, child),
        0 <= x < d.len(),
    ensures
        remove_child_spec(d, parent, child).len() == d.len(),
        remove_child_spec(d, parent, child)[x].tag == d[x].tag,
        remove_child_spec(d, parent, child)[x].attributes == d[x].attributes,
        remove_child_spec(d, parent, child)[x].text == d[x].text,
        remove_child_spec(d, parent, child)[x].parent == if x == child.index && d[parent.index as int].children.contains(
            child,
        ) {
            None
        } else {
            d[x].parent
        },
{
    lemma_child_position(d[parent.index as int].children, child);
}

proof fn lemma_add_child_links_valid(d: Seq<NodeView>, parent: NodeRef, child: NodeRef)
    requires
        links_valid(d),
        valid_ref(d, parent),
        valid_ref(d, child),
    ensures
        links_valid(add_child_spec(d, parent, child)),
{
    let d1 = add_child_spec(d, parent, child);
    assert forall|i: int| 0 <= i < d1.len() implies {
        &&& (#[trigger] d1[i]).parent matches Some(q) ==> valid_ref(d1, q)
        &&& forall|j: int| 0 <= j < d1[i].children.len() ==> valid_ref(d1, #[trigger] d1[i].children[j])
    } by {
        lemma_node_links(d, i);
        if i == parent.index {
            assert forall|j: int| 0 <= j < d1[i].children.len() implies valid_ref(d1, #[trigger] d1[i].children[j]) by {
                if j < d[i].children.len() {
                    assert(d1[i].children[j] == d[i].children[j]);
                }
            }
        }
    }
}

/// The first step at which the parent chain of `n` meets `c`.
proof fn first_meeting(d: Seq<NodeView>, n: int, c: int, k: nat) -> (f: nat)
    requires
        ancestor(d, n, k) == Some(c),
    ensures
        f <= k,
        ancestor(d, n, f) == Some(c),
        forall|j: nat| j < f ==> ancestor(d, n, j) != Some(c),
    decreases k,
{
    if exists|j: nat| j < k && ancestor(d, n, j) == Some(c) {
        let j = choose|j: nat| j < k && ancestor(d, n, j) == Some(c);
        first_meeting(d, n, c, j)
    } else {
        k
    }
}

/// Attaching a detached node under a node that does not have it among its
/// ancestors keeps the document a well-linked forest.
pub proof fn lemma_add_child_keeps_forest(d: Seq<NodeView>, parent: NodeRef, child: NodeRef)
    requires
        well_linked(d),
        valid_ref(d, parent),
        valid_ref(d, child),
        d[child.index as int].parent is None,
        forall|k: nat| ancestor(d, parent.index as int, k) != Some(child.index as int),
    ensures
        well_linked(add_child_spec(d, parent, child)),
{
    let d1 = add_child_spec(d, parent, child);
    let p = parent.index as int;
    let c = child.index as int;
    assert(ancestor(d, p, 0) == Some(p));
    lemma_add_child_links_valid(d, parent, child);
    // the child is listed nowhere before the call
    assert forall|i: int, j: int| 0 <= i < d.len() && 0 <= j < d[i].children.len() implies d[i].children[j] != child by {
        assert(d[d[i].children[j].index as int].parent == Some(NodeRef { index: i as usize }));
    }
    assert forall|i: int, j: int| 0 <= i < d1.len() && 0 <= j < d1[i].children.len() implies d1[(#[trigger] d1[i].children[j]).index as int].parent
        == Some(NodeRef { index: i as usize }) by {
        if i == p && j == d[i].children.len() {
            assert(d1[i].children[j] == child);
        } else {
            assert(d1[i].children[j] == d[i].children[j]);
            assert(d[i].children[j] != child);
            assert(d[(d[i].children[j]).index as int].parent == Some(NodeRef { index: i as usize }));
        }
    }
    assert forall|i: int| 0 <= i < d1.len() implies ((#[trigger] d1[i]).parent matches Some(q) ==> d1[q.index as int].children.contains(
        NodeRef { index: i as usize },
    )) by {
        if i == c {
            assert(d1[p].children[d[p].children.len() as int] == child);
        } else if let Some(q) = d[i].parent {
            assert(d[q.index as int].children.contains(NodeRef { index: i as usize }));
            lemma_node_links(d, i);
            if q.index == p {
                let j = choose|j: int| 0 <= j < d[p].children.len() && d[p].children[j] == NodeRef { index: i as usize };
                assert(d1[p].children[j] == d[p].children[j]);
            }
        }
    }
    assert forall|i: int| 0 <= i < d1.len() implies (#[trigger] d1[i]).children.no_duplicates() by {
        assert(d[i].children.no_duplicates());
        if i == p {
            assert forall|a: int, b: int| 0 <= a < d1[i].children.len() && 0 <= b < d1[i].children.len() && a != b implies d1[i].children[a]
                != d1[i].children[b] by {
                let n = d[i].children.len() as int;
                if a < n {
                    assert(d[i].children[a] != child);
                }
                if b < n {
                    assert(d[i].children[b] != child);
                }
            }
        }
    }
    // every parent chain still ends
    lemma_depth(d, p);
    let kp = depth_of(d, p);
    assert forall|m: nat| #[trigger] ancestor(d1, p, m) == ancestor(d, p, m) by {
        lemma_ancestor_unchanged(d, parent, child, p, m);
    }
    assert(ancestor(d, p, kp + 1) is None);
    assert forall|i: int| 0 <= i < d1.len() implies #[trigger] reaches_root(d1, i) by {
        if exists|k: nat| ancestor(d, i, k) == Some(c) {
            let k0 = choose|k: nat| ancestor(d, i, k) == Some(c);
            let f = first_meeting(d, i, c, k0);
            lemma_ancestor_unchanged(d, parent, child, i, f);
            assert(ancestor(d1, i, f) == Some(c));
            assert(ancestor(d1, i, f + 1) == Some(p));
            assert(ancestor(d1, i, f + 1) == ancestor(d1, p, 0));
            lemma_ancestor_shift(d1, i, p, f + 1, 0, kp + 1);
            assert(ancestor(d1, i, f + 1 + (kp + 1)) == ancestor(d1, p, 0 + (kp + 1)));
            assert(ancestor(d1, i, f + 1 + (kp + 1)) is None);
        } else {
            assert(reaches_root(d, i));
            let k = choose|k: nat| #[trigger] ancestor(d, i, k) is None;
            lemma_ancestor_unchanged(d, parent, child, i, k);
            assert(ancestor(d1, i, k) is None);
        }
    }
}

/// A call on the links of the document.
pub enum LinkCall {
    Add { parent: NodeRef, child: NodeRef },
    Remove { parent: NodeRef, child: NodeRef },
}

/// The document after the calls, first to last.
pub open spec fn apply_calls(d: Seq<NodeView>, calls: Seq<LinkCall>) -> Seq<NodeView>
    decreases calls.len(),
{
    if calls.len() == 0 {
        d
    } else {
        let before = apply_calls(d, calls.drop_last());
        match calls.last() {
            LinkCall::Add { parent, child } => add_child_spec(before, parent, child),
            LinkCall::Remove { parent, child } => remove_child_spec(before, parent, child),
        }
    }
}

/// Every call names nodes of the document.
pub open spec fn calls_valid(d: Seq<NodeView>, calls: Seq<LinkCall>) -> bool {
    forall|i: int|
        0 <= i < calls.len() ==> match #[trigger] calls[i] {
            LinkCall::Add { parent, child } => valid_ref(d, parent) && valid_ref(d, child),
            LinkCall::Remove { parent, child } => valid_ref(d, parent) && valid_ref(d, child),
        }
}

/// The parent of `x` after the calls: the parent of the last call that
/// attached `x`, unless a later call removed `x` from that node's children;
/// its first parent when no call touched it.
pub open spec fn parent_after(d: Seq<NodeView>, calls: Seq<LinkCall>, x: NodeRef) -> Option<NodeRef>
    decreases calls.len(),
{
    if calls.len() == 0 {
        d[x.index as int].parent
    } else {
        match calls.last() {
            LinkCall::Add { parent, child } => if child == x {
                Some(parent)
            } else {
                parent_after(d, calls.drop_last(), x)
            },
            LinkCall::Remove { parent, child } => if child == x && apply_calls(
                d,
                calls.drop_last(),
            )[parent.index as int].children.contains(x) {
                None
            } else {
                parent_after(d, calls.drop_last(), x)
            },
        }
    }
}

/// After any sequence of `add_child` and `remove_child` calls, a node's
/// parent is the one its history of calls gives.
pub proof fn lemma_parent_follows_calls(d: Seq<NodeView>, calls: Seq<LinkCall>, x: NodeRef)
    requires
        calls_valid(d, calls),
        valid_ref(d, x),
    ensures
        apply_calls(d, calls).len() == d.len(),
        apply_calls(d, calls)[x.index as int].parent == parent_after(d, calls, x),
    decreases calls.len(),
{
    if calls.len() > 0 {
        let front = calls.drop_last();
        assert(calls_valid(d, front)) by {
            assert forall|i: int| 0 <= i < front.len() implies match #[trigger] front[i] {
                LinkCall::Add { parent, child } => valid_ref(d, parent) && valid_ref(d, child),
                LinkCall::Remove { parent, child } => valid_ref(d, parent) && valid_ref(d, child),
            } by {
                assert(front[i] == calls[i]);
            }
        }
        lemma_parent_follows_calls(d, front, x);
        let before = apply_calls(d, front);
        let last = calls.last();
        assert(calls[calls.len() - 1] == last);
        match last {
            LinkCall::Add { parent, child } => {
                lemma_add_child_frame(before, parent, child, x.index as int);
            },
            LinkCall::Remove { parent, child } => {
                lemma_remove_child_frame(before, parent, child, x.index as int);
            },
        }
    }
}

/// The matches below each of the nodes `cs`, one after the other.
pub open spec fn find_each(d: Seq<NodeView>, cs: Seq<NodeRef>, tag: Seq<char>) -> Seq<NodeRef>
    decreases cs.len(),
{
    if cs.len() == 0 {
        Seq::empty()
    } else {
        find_each(d, cs.drop_last(), tag) + find_spec(d, cs.last(), tag)
    }
}

proof fn lemma_find_spec_at(d: Seq<NodeView>, c: NodeRef, tag: Seq<char>, h: nat)
    requires
        bounded(d, seq![c], h),
    ensures
        finite_below(d, c),
        find_spec(d, c, tag) == matches_in(d, seq![c], tag, h),
{
    let hc = choose|h: nat| bounded(d, seq![c], h);
    let m = if hc < h { h } else { hc };
    lemma_matches_fuel(d, seq![c], tag, hc, m);
    lemma_matches_fuel(d, seq![c], tag, h, m);
}

proof fn lemma_matches_each(d: Seq<NodeView>, cs: Seq<NodeRef>, tag: Seq<char>, h: nat)
    requires
        bounded(d, cs, h),
    ensures
        matches_in(d, cs, tag, h) == find_each(d, cs, tag),
        forall|i: int| 0 <= i < cs.len() ==> finite_below(d, #[trigger] cs[i]),
    decreases cs.len(),
{
    if cs.len() > 0 {
        let last = cs.last();
        let front = cs.drop_last();
        assert(cs =~= front + seq![last]);
        lemma_bounded_append(d, front, seq![last], h);
        lemma_matches_append(d, front, seq![last], tag, h);
        lemma_matches_each(d, front, tag, h);
        lemma_find_spec_at(d, last, tag, h);
        assert forall|i: int| 0 <= i < cs.len() implies finite_below(d, #[trigger] cs[i]) by {
            if i < front.len() {
                assert(cs[i] == front[i]);
            }
        }
    }
}

/// `find_by_tag` on a node gives the node itself when its tag matches, then
/// the results on its children one after the other.
pub proof fn lemma_find_by_tag_unfolds(d: Seq<NodeView>, node: NodeRef, tag: Seq<char>)
    requires
        finite_below(d, node),
    ensures
        forall|i: int| 0 <= i < d[node.index as int].children.len() ==> finite_below(d, #[trigger] d[node.index as int].children[i]),
        find_spec(d, node, tag) == (if d[node.index as int].tag == tag {
            seq![node]
        } else {
            Seq::<NodeRef>::empty()
        }) + find_each(d, d[node.index as int].children, tag),
{
    let h = choose|h: nat| bounded(d, seq![node], h);
    assert(seq![node].drop_first() =~= Seq::<NodeRef>::empty());
    assert(h > 0);
    assert(bounded(d, d[node.index as int].children, (h - 1) as nat));
    lemma_matches_each(d, d[node.index as int].children, tag, (h - 1) as nat);
    let here: Seq<NodeRef> = if d[node.index as int].tag == tag { seq![node] } else { Seq::empty() };
    assert(matches_in(d, seq![node], tag, h) == here + matches_in(d, d[node.index as int].children, tag, (h - 1) as nat)
        + matches_in(d, Seq::<NodeRef>::empty(), tag, h));
    assert(find_spec(d, node, tag) =~= here + find_each(d, d[node.index as int].children, tag));
}

/// The children after removing: when `child` is in `old` with its first
/// occurrence at `i`, `new` is `old` without that one element, every other
/// child kept in its old order; otherwise `new` is `old`.
pub open spec fn removes_first_occurrence(old: Seq<NodeRef>, new: Seq<NodeRef>, child: NodeRef) -> bool {
    if old.contains(child) {
        exists|i: int|
            0 <= i < old.len() && #[trigger] old[i] == child && (forall|j: int| 0 <= j < i ==> old[j] != child)
                && new.len() == old.len() - 1 && (forall|j: int| 0 <= j < i ==> new[j] == old[j]) && (forall|j: int|
                i <= j < new.len() ==> new[j] == old[j + 1])
    } else {
        new == old
    }
}

/// `remove_child` takes exactly the first occurrence of the child out of
/// the parent's child list and keeps the other children in their order;
/// every other node keeps its children.
pub proof fn lemma_remove_child_keeps_order(d: Seq<NodeView>, parent: NodeRef, child: NodeRef)
    requires
        valid_ref(d, parent),
        valid_ref(d, child),
    ensures
        removes_first_occurrence(
            d[parent.index as int].children,
            remove_child_spec(d, parent, child)[parent.index as int].children,
            child,
        ),
        forall|x: int|
            0 <= x < d.len() && x != parent.index ==> (#[trigger] remove_child_spec(d, parent, child)[x]).children
                == d[x].children,
{
    let old_cs = d[parent.index as int].children;
    let new_cs = remove_child_spec(d, parent, child)[parent.index as int].children;
    lemma_child_position(old_cs, child);
    match child_position(old_cs, child) {
        Some(i) => {
            assert(new_cs == old_cs.remove(i));
            assert(old_cs[i] == child);
        },
        None => {},
    }
}

/// Indentation is two spaces per level: `indent(n)` is `2 * n` spaces.
pub proof fn lemma_indent_is_spaces(n: nat)
    ensures
        indent(n).len() == 2 * n,
        forall|i: int| 0 <= i < indent(n).len() ==> #[trigger] indent(n)[i] == ' ',
    decreases n,
{
    if n > 0 {
        lemma_indent_is_spaces((n - 1) as nat);
        let prev = indent((n - 1) as nat);
        assert forall|i: int| 0 <= i < indent(n).len() implies #[trigger] indent(n)[i] == ' ' by {
            if i < prev.len() {
                assert(indent(n)[i] == prev[i]);
            }
        }
    }
}

/// The rendering of a node starts with two spaces per ancestor, then the
/// opening `<` of its tag.
pub proof fn lemma_render_indentation(d: Seq<NodeView>, node: NodeRef)
    requires
        can_render(d, node),
    ensures
        render_spec(d, node).len() > 2 * depth_of(d, node.index as int),
        forall|i: int| 0 <= i < 2 * depth_of(d, node.index as int) ==> #[trigger] render_spec(d, node)[i] == ' ',
        render_spec(d, node)[2 * depth_of(d, node.index as int) as int] == '<',
{
    lemma_render_unfolds(d, node);
    let dep = depth_of(d, node.index as int);
    let w: int = 2 * dep as int;
    lemma_indent_is_spaces(dep);
    let n = d[node.index as int];
    let open = indent(dep) + seq!['<'] + n.tag + attribute_text(n.attributes) + seq!['>'];
    let head = node_head(d, node);
    let r = render_spec(d, node);
    assert(r == head + render_each(d, n.children) + node_tail(d, node));
    assert(head.len() >= open.len());
    assert forall|i: int| 0 <= i <= w implies #[trigger] r[i] == open[i] by {
        assert(r[i] == head[i]);
        assert(head[i] == open[i]);
    }
    assert forall|i: int| 0 <= i < w implies #[trigger] r[i] == ' ' by {
        assert(r[i] == open[i]);
        assert(open[i] == indent(dep)[i]);
    }
    assert(open[w] == '<');
    assert(r[w] == open[w]);
}

} // verus!

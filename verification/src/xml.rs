//! XmlNode (one element of the parsed tree) and parse_document, the reader for the URDF and MJCF
//! documents this project consumes. The lexing and well-formedness checks are roxmltree's: a
//! malformed document, an unquoted attribute value and a mismatched close tag are errors, not
//! silent partial parses. Element text content is dropped.
use crate::text::str_eq;
use vstd::prelude::*;

verus! {

/// One element of the parsed tree: its tag name, its attributes in document order and its element
/// children in document order. Two elements are `==` when they have the same name, give every
/// attribute name the same value (attributes compare as a name-keyed table, whatever their order)
/// and have equal children, in order.
#[derive(Debug, Default)]
pub struct XmlNode {
    pub name: String,
    pub attrs: Vec<(String, String)>,
    pub children: Vec<XmlNode>,
}

/// The value of the last attribute named `key`; a later attribute of the same local name
/// overrides an earlier one, as a name-keyed table built in document order does.
pub open spec fn attr_value(attrs: Seq<(String, String)>, key: Seq<char>) -> Option<Seq<char>>
    decreases attrs.len(),
{
    if attrs.len() == 0 {
        None
    } else if attrs.last().0@ == key {
        Some(attrs.last().1@)
    } else {
        attr_value(attrs.drop_last(), key)
    }
}

/// The attribute value, or `default` where the element has no such attribute.
pub open spec fn attr_or_value(attrs: Seq<(String, String)>, key: Seq<char>, default: Seq<char>) -> Seq<char> {
    match attr_value(attrs, key) {
        Some(v) => v,
        None => default,
    }
}

/// Two elements with the same name, attributes and, child by child, the same subtrees.
pub open spec fn same_tree(a: XmlNode, b: XmlNode) -> bool
    decreases a, a.children@.len() + 1,
{
    &&& a.name@ == b.name@
    &&& pairs_view(a.attrs@) == pairs_view(b.attrs@)
    &&& a.children@.len() == b.children@.len()
    &&& same_children(a, b.children@, a.children@.len() as int)
}

/// The children of `a` below position `upto` have the same subtrees as the elements of `kids`.
pub open spec fn same_children(a: XmlNode, kids: Seq<XmlNode>, upto: int) -> bool
    decreases a, upto,
{
    if upto <= 0 || upto > a.children@.len() {
        true
    } else {
        same_children(a, kids, upto - 1) && same_tree(a.children@[upto - 1], kids[upto - 1])
    }
}

proof fn lemma_same_children_extend(a: XmlNode, kids: Seq<XmlNode>, x: XmlNode, upto: int)
    requires
        0 <= upto <= kids.len(),
        same_children(a, kids, upto),
    ensures
        same_children(a, kids.push(x), upto),
    decreases upto,
{
    if 0 < upto <= a.children@.len() {
        lemma_same_children_extend(a, kids, x, upto - 1);
        assert(kids.push(x)[upto - 1] == kids[upto - 1]);
    }
}

/// A copy of an element and its subtree.
fn copy_node(n: &XmlNode) -> (r: XmlNode)
    ensures
        same_tree(*n, r),
    decreases *n,
{
    let mut attrs: Vec<(String, String)> = Vec::new();
    let mut i: usize = 0;
    while i < n.attrs.len()
        invariant
            i <= n.attrs@.len(),
            pairs_view(attrs@) == pairs_view(n.attrs@.take(i as int)),
        decreases n.attrs@.len() - i,
    {
        let key = n.attrs[i].0.clone();
        let value = n.attrs[i].1.clone();
        let ghost before = attrs@;
        attrs.push((key, value));
        assert(n.attrs@.take(i + 1) =~= n.attrs@.take(i as int).push(n.attrs@[i as int]));
        assert(pairs_view(attrs@) =~= pairs_view(before).push((key@, value@)));
        i = i + 1;
    }
    assert(n.attrs@.take(n.attrs@.len() as int) =~= n.attrs@);
    let mut children: Vec<XmlNode> = Vec::new();
    let mut k: usize = 0;
    while k < n.children.len()
        invariant
            k <= n.children@.len(),
            children@.len() == k,
            same_children(*n, children@, k as int),
        decreases n.children@.len() - k,
    {
        let c = copy_node(&n.children[k]);
        let ghost before = children@;
        proof {
            lemma_same_children_extend(*n, before, c, k as int);
        }
        children.push(c);
        assert(children@[k as int] == c);
        k = k + 1;
    }
    XmlNode { name: n.name.clone(), attrs, children }
}

impl Clone for XmlNode {
    /// A deep copy: the same name, attributes and subtrees.
    fn clone(&self) -> (r: Self)
        ensures
            same_tree(*self, r),
    {
        copy_node(self)
    }
}

/// The two attribute lists give every name the same value, as two name-keyed tables compare.
pub open spec fn same_attrs(a: Seq<(String, String)>, b: Seq<(String, String)>) -> bool {
    forall|k: Seq<char>| #[trigger] attr_value(a, k) == attr_value(b, k)
}

/// What `==` compares: the names, the attributes as tables and the children, in order.
pub open spec fn node_eq(a: XmlNode, b: XmlNode) -> bool
    decreases a, a.children@.len() + 1,
{
    &&& a.name@ == b.name@
    &&& same_attrs(a.attrs@, b.attrs@)
    &&& a.children@.len() == b.children@.len()
    &&& children_eq(a, b.children@, a.children@.len() as int)
}

/// The children of `a` below position `upto` compare equal to the elements of `kids`.
pub open spec fn children_eq(a: XmlNode, kids: Seq<XmlNode>, upto: int) -> bool
    decreases a, upto,
{
    if upto <= 0 || upto > a.children@.len() {
        true
    } else {
        children_eq(a, kids, upto - 1) && node_eq(a.children@[upto - 1], kids[upto - 1])
    }
}

proof fn lemma_children_eq(a: XmlNode, kids: Seq<XmlNode>, upto: int)
    requires
        0 <= upto <= a.children@.len(),
    ensures
        children_eq(a, kids, upto) <==> forall|i: int|
            0 <= i < upto ==> #[trigger] node_eq(a.children@[i], kids[i]),
    decreases upto,
{
    if upto > 0 {
        lemma_children_eq(a, kids, upto - 1);
        if children_eq(a, kids, upto) {
            assert forall|i: int| 0 <= i < upto implies #[trigger] node_eq(a.children@[i], kids[i]) by {
                if i < upto - 1 {
                    assert(node_eq(a.children@[i], kids[i]));
                }
            }
        }
        if forall|i: int| 0 <= i < upto ==> #[trigger] node_eq(a.children@[i], kids[i]) {
            assert(node_eq(a.children@[upto - 1], kids[upto - 1]));
            assert forall|i: int| 0 <= i < upto - 1 implies #[trigger] node_eq(a.children@[i], kids[i]) by {
                assert(node_eq(a.children@[i], kids[i]));
            }
        }
    }
}

proof fn lemma_attr_value_named(a: Seq<(String, String)>, k: Seq<char>)
    ensures
        attr_value(a, k) is Some ==> exists|j: int| 0 <= j < a.len() && (#[trigger] a[j]).0@ == k,
    decreases a.len(),
{
    if a.len() > 0 && a.last().0@ != k {
        lemma_attr_value_named(a.drop_last(), k);
        if attr_value(a.drop_last(), k) is Some {
            let j = choose|j: int| 0 <= j < a.drop_last().len() && (#[trigger] a.drop_last()[j]).0@ == k;
            assert(a[j] == a.drop_last()[j]);
        }
    }
}

/// The value of the last attribute named `key` in a list.
fn attr_in(attrs: &Vec<(String, String)>, key: &str) -> (r: Option<String>)
    ensures
        match attr_value(attrs@, key@) {
            Some(v) => r is Some && r->0@ == v,
            None => r is None,
        },
{
    let mut i = attrs.len();
    assert(attrs@.take(i as int) =~= attrs@);
    while i > 0
        invariant
            i <= attrs@.len(),
            attr_value(attrs@, key@) == attr_value(attrs@.take(i as int), key@),
        decreases i,
    {
        assert(attrs@.take(i as int).drop_last() =~= attrs@.take(i - 1));
        if str_eq(attrs[i - 1].0.as_str(), key) {
            return Some(attrs[i - 1].1.clone());
        }
        i = i - 1;
    }
    None
}

/// Every attribute name of `a` has the same value in `b`.
fn attrs_within(a: &Vec<(String, String)>, b: &Vec<(String, String)>) -> (r: bool)
    ensures
        r == forall|j: int| 0 <= j < a@.len() ==> attr_value(a@, (#[trigger] a@[j]).0@) == attr_value(b@, a@[j].0@),
{
    let mut i: usize = 0;
    while i < a.len()
        invariant
            i <= a@.len(),
            forall|j: int| 0 <= j < i ==> attr_value(a@, (#[trigger] a@[j]).0@) == attr_value(b@, a@[j].0@),
        decreases a@.len() - i,
    {
        let key = a[i].0.as_str();
        let va = attr_in(a, key);
        let vb = attr_in(b, key);
        let same = match (&va, &vb) {
            (Some(x), Some(y)) => str_eq(x.as_str(), y.as_str()),
            (None, None) => true,
            _ => false,
        };
        if !same {
            assert(attr_value(a@, a@[i as int].0@) != attr_value(b@, a@[i as int].0@));
            return false;
        }
        i = i + 1;
    }
    true
}

fn same_attrs_exec(a: &Vec<(String, String)>, b: &Vec<(String, String)>) -> (r: bool)
    ensures
        r == same_attrs(a@, b@),
{
    let ab = attrs_within(a, b);
    let ba = attrs_within(b, a);
    proof {
        if ab && ba {
            assert forall|k: Seq<char>| #[trigger] attr_value(a@, k) == attr_value(b@, k) by {
                lemma_attr_value_named(a@, k);
                lemma_attr_value_named(b@, k);
                if attr_value(a@, k) is Some {
                    let j = choose|j: int| 0 <= j < a@.len() && (#[trigger] a@[j]).0@ == k;
                    assert(attr_value(a@, a@[j].0@) == attr_value(b@, a@[j].0@));
                } else if attr_value(b@, k) is Some {
                    let j = choose|j: int| 0 <= j < b@.len() && (#[trigger] b@[j]).0@ == k;
                    assert(attr_value(b@, b@[j].0@) == attr_value(a@, b@[j].0@));
                }
            }
        }
        if !ab {
            let j = choose|j: int| 0 <= j < a@.len() && !(attr_value(a@, (#[trigger] a@[j]).0@) == attr_value(b@, a@[j].0@));
            assert(!(attr_value(a@, a@[j].0@) == attr_value(b@, a@[j].0@)));
        }
        if !ba {
            let j = choose|j: int| 0 <= j < b@.len() && !(attr_value(b@, (#[trigger] b@[j]).0@) == attr_value(a@, b@[j].0@));
            assert(!(attr_value(b@, b@[j].0@) == attr_value(a@, b@[j].0@)));
        }
    }
    ab && ba
}

/// Whether two elements compare equal.
fn node_eq_exec(a: &XmlNode, b: &XmlNode) -> (r: bool)
    ensures
        r == node_eq(*a, *b),
    decreases *a,
{
    if !str_eq(a.name.as_str(), b.name.as_str()) {
        return false;
    }
    if !same_attrs_exec(&a.attrs, &b.attrs) {
        return false;
    }
    if a.children.len() != b.children.len() {
        return false;
    }
    let mut k: usize = 0;
    while k < a.children.len()
        invariant
            k <= a.children@.len(),
            a.children@.len() == b.children@.len(),
            forall|i: int| 0 <= i < k ==> #[trigger] node_eq(a.children@[i], b.children@[i]),
        decreases a.children@.len() - k,
    {
        if !node_eq_exec(&a.children[k], &b.children[k]) {
            proof {
                lemma_children_eq(*a, b.children@, a.children@.len() as int);
            }
            return false;
        }
        k = k + 1;
    }
    proof {
        lemma_children_eq(*a, b.children@, a.children@.len() as int);
    }
    true
}

impl PartialEq for XmlNode {
    fn eq(&self, other: &Self) -> (r: bool) {
        node_eq_exec(self, other)
    }
}

impl vstd::std_specs::cmp::PartialEqSpecImpl for XmlNode {
    open spec fn obeys_eq_spec() -> bool {
        true
    }

    open spec fn eq_spec(&self, other: &XmlNode) -> bool {
        node_eq(*self, *other)
    }
}

impl XmlNode {
    /// The attribute named `key`, if the element carries one.
    pub fn attr(&self, key: &str) -> (r: Option<String>)
        ensures
            match attr_value(self.attrs@, key@) {
                Some(v) => r is Some && r->0@ == v,
                None => r is None,
            },
    {
        let mut i = self.attrs.len();
        assert(self.attrs@.take(i as int) =~= self.attrs@);
        while i > 0
            invariant
                i <= self.attrs@.len(),
                attr_value(self.attrs@, key@) == attr_value(self.attrs@.take(i as int), key@),
            decreases i,
        {
            let ghost pre = self.attrs@.take(i as int);
            assert(pre.drop_last() =~= self.attrs@.take(i - 1));
            if str_eq(self.attrs[i - 1].0.as_str(), key) {
                return Some(self.attrs[i - 1].1.clone());
            }
            i = i - 1;
        }
        None
    }

    /// The attribute named `key`, or `default` when the element has none.
    pub fn attr_or(&self, key: &str, default: &str) -> (r: String)
        ensures
            r@ == attr_or_value(self.attrs@, key@, default@),
    {
        match self.attr(key) {
            Some(v) => v,
            None => default.to_owned(),
        }
    }
}

/// One node of a parsed document as the parser hands it out, in document order: the node's id,
/// the id of its parent (none for the document root), whether it is an element, and, for an
/// element, its local tag name and its attributes.
pub struct RawXmlNode {
    pub id: usize,
    pub parent: Option<usize>,
    pub is_element: bool,
    pub name: String,
    pub attrs: Vec<(String, String)>,
}

/// The plain values a parsed node carries.
pub type RawNodeView = (usize, Option<usize>, bool, Seq<char>, Seq<(Seq<char>, Seq<char>)>);

pub open spec fn pairs_view(attrs: Seq<(String, String)>) -> Seq<(Seq<char>, Seq<char>)> {
    attrs.map_values(|p: (String, String)| (p.0@, p.1@))
}

impl View for RawXmlNode {
    type V = RawNodeView;

    open spec fn view(&self) -> RawNodeView {
        (self.id, self.parent, self.is_element, self.name@, pairs_view(self.attrs@))
    }
}

pub open spec fn raw_nodes_view(nodes: Seq<RawXmlNode>) -> Seq<RawNodeView> {
    nodes.map_values(|n: RawXmlNode| n@)
}

/// What roxmltree makes of a document: every node of the document tree in document order, starting
/// with the document root, or the text of the error that rejects the document.
pub uninterp spec fn roxml_parse(src: Seq<char>) -> Result<Seq<RawNodeView>, Seq<char>>;

/// `roxmltree::Document::parse`: the nodes of the parsed document in document order (its
/// `descendants`, which start with the document root), each with its id, its parent's id, its kind,
/// its local tag name and its attributes' local names and values, or the parser's error text.
/// The result is named by `roxml_parse`; nothing more is claimed of it.
#[verifier::external_body]
fn roxml_nodes(src: &str) -> (r: Result<Vec<RawXmlNode>, String>)
    ensures
        match r {
            Ok(v) => roxml_parse(src@) == Ok::<Seq<RawNodeView>, Seq<char>>(raw_nodes_view(v@)),
            Err(e) => roxml_parse(src@) == Err::<Seq<RawNodeView>, Seq<char>>(e@),
        },
{
    match roxmltree::Document::parse(src) {
        Ok(doc) => Ok(doc.descendants().map(|n| RawXmlNode {
            id: n.id().get_usize(),
            parent: n.parent().map(|p| p.id().get_usize()),
            is_element: n.is_element(),
            name: n.tag_name().name().to_string(),
            attrs: n.attributes().map(|a| (a.name().to_string(), a.value().to_string())).collect(),
        }).collect()),
        Err(e) => Err(e.to_string()),
    }
}

/// Node `j` is an element child of node `i`.
pub open spec fn is_element_child(raw: Seq<RawNodeView>, i: int, j: int) -> bool {
    &&& raw[j].2
    &&& raw[j].1 == Some(raw[i].0)
}

/// The positions, below `upto` and after `i`, of the element children of node `i`, in document
/// order.
pub open spec fn child_positions(raw: Seq<RawNodeView>, i: int, upto: int) -> Seq<int>
    decreases upto - i,
{
    if upto <= i + 1 {
        Seq::empty()
    } else {
        let s = child_positions(raw, i, upto - 1);
        if is_element_child(raw, i, upto - 1) {
            s.push(upto - 1)
        } else {
            s
        }
    }
}

proof fn lemma_child_positions_bounds(raw: Seq<RawNodeView>, i: int, upto: int)
    ensures
        forall|k: int|
            0 <= k < child_positions(raw, i, upto).len() ==> i < #[trigger] child_positions(
                raw,
                i,
                upto,
            )[k] < upto,
    decreases upto - i,
{
    if upto > i + 1 {
        lemma_child_positions_bounds(raw, i, upto - 1);
        let s = child_positions(raw, i, upto - 1);
        let t = child_positions(raw, i, upto);
        assert forall|k: int| 0 <= k < t.len() implies i < #[trigger] t[k] < upto by {
            if k < s.len() {
                assert(t[k] == s[k]);
            }
        }
    }
}

/// `node` is the element at position `i` of `raw`, with the whole subtree below it: the same tag
/// name, the same attributes, and, child by child in document order, the subtrees of its element
/// children.
pub open spec fn tree_matches(node: XmlNode, raw: Seq<RawNodeView>, i: int) -> bool
    decreases raw.len() - i,
{
    let kids = child_positions(raw, i, raw.len() as int);
    &&& 0 <= i < raw.len()
    &&& node.name@ == raw[i].3
    &&& pairs_view(node.attrs@) == raw[i].4
    &&& node.children@.len() == kids.len()
    &&& forall|k: int|
        #![trigger node.children@[k]]
        0 <= k < kids.len() ==> (i < kids[k] < raw.len() && tree_matches(
            node.children@[k],
            raw,
            kids[k],
        ))
}

/// The position of the document's root element: the first element whose parent is the document
/// root.
pub open spec fn root_position(raw: Seq<RawNodeView>) -> Option<int> {
    if raw.len() > 0 && exists|j: int| 0 < j < raw.len() && is_element_child(raw, 0, j) {
        Some(choose|j: int| {
            &&& 0 < j < raw.len()
            &&& is_element_child(raw, 0, j)
            &&& forall|k: int| 0 < k < j ==> !is_element_child(raw, 0, k)
        })
    } else {
        None
    }
}

fn copy_pairs(attrs: &Vec<(String, String)>) -> (r: Vec<(String, String)>)
    ensures
        pairs_view(r@) == pairs_view(attrs@),
{
    let mut out: Vec<(String, String)> = Vec::new();
    let mut i: usize = 0;
    while i < attrs.len()
        invariant
            i <= attrs@.len(),
            out@.len() == i,
            forall|k: int| 0 <= k < i ==> #[trigger] out@[k].0@ == attrs@[k].0@ && out@[k].1@ == attrs@[k].1@,
        decreases attrs@.len() - i,
    {
        let k = attrs[i].0.clone();
        let v = attrs[i].1.clone();
        out.push((k, v));
        i = i + 1;
    }
    assert(pairs_view(out@) =~= pairs_view(attrs@));
    out
}

fn build_element(raw: &Vec<RawXmlNode>, i: usize) -> (n: XmlNode)
    requires
        i < raw@.len(),
    ensures
        tree_matches(n, raw_nodes_view(raw@), i as int),
    decreases raw@.len() - i,
{
    let ghost rv = raw_nodes_view(raw@);
    let name = raw[i].name.clone();
    let attrs = copy_pairs(&raw[i].attrs);
    let id = raw[i].id;
    let mut children: Vec<XmlNode> = Vec::new();
    let len = raw.len();
    let mut j: usize = i + 1;
    while j < len
        invariant
            len == raw@.len(),
            rv == raw_nodes_view(raw@),
            i < raw@.len(),
            i + 1 <= j <= raw@.len(),
            id == rv[i as int].0,
            children@.len() == child_positions(rv, i as int, j as int).len(),
            forall|k: int|
                #![trigger children@[k]]
                0 <= k < children@.len() ==> i < child_positions(rv, i as int, j as int)[k]
                    && child_positions(rv, i as int, j as int)[k] < rv.len() && tree_matches(
                    children@[k],
                    rv,
                    child_positions(rv, i as int, j as int)[k],
                ),
        decreases raw@.len() - j,
    {
        let ghost before = child_positions(rv, i as int, j as int);
        let is_kid = match raw[j].parent {
            Some(p) => raw[j].is_element && p == id,
            None => false,
        };
        assert(rv[j as int] == raw@[j as int]@);
        assert(is_kid == is_element_child(rv, i as int, j as int));
        proof {
            lemma_child_positions_bounds(rv, i as int, j as int);
        }
        if is_kid {
            let c = build_element(raw, j);
            children.push(c);
            assert(child_positions(rv, i as int, j + 1) == before.push(j as int));
        } else {
            assert(child_positions(rv, i as int, j + 1) == before);
        }
        j = j + 1;
    }
    let n = XmlNode { name, attrs, children };
    assert(rv.len() == raw@.len());
    assert(rv[i as int] == raw@[i as int]@);
    assert(n.name@ == rv[i as int].3);
    assert(pairs_view(n.attrs@) == rv[i as int].4);
    assert(n.children@ == children@);
    assert(j == rv.len());
    let ghost kids = child_positions(rv, i as int, rv.len() as int);
    proof {
        lemma_child_positions_bounds(rv, i as int, rv.len() as int);
    }
    assert(n.children@.len() == kids.len());
    assert forall|k: int| 0 <= k < kids.len() implies (i < kids[k] < rv.len() && tree_matches(
        #[trigger] n.children@[k],
        rv,
        kids[k],
    )) by {
        assert(n.children@[k] == children@[k]);
    }
    assert(tree_matches(n, rv, i as int));
    n
}

/// The element tree rooted at the document's root element, built from the parser's node list:
/// `None` when the list has no element under the document root.
pub fn xml_tree_from_nodes(raw: &Vec<RawXmlNode>) -> (r: Option<XmlNode>)
    ensures
        match root_position(raw_nodes_view(raw@)) {
            Some(p) => r is Some && tree_matches(r->0, raw_nodes_view(raw@), p),
            None => r is None,
        },
{
    let ghost rv = raw_nodes_view(raw@);
    if raw.len() == 0 {
        return None;
    }
    let id0 = raw[0].id;
    let mut j: usize = 1;
    while j < raw.len()
        invariant
            rv == raw_nodes_view(raw@),
            raw@.len() > 0,
            1 <= j <= raw@.len(),
            id0 == rv[0].0,
            forall|k: int| 0 < k < j ==> !is_element_child(rv, 0, k),
        decreases raw@.len() - j,
    {
        let is_root = match raw[j].parent {
            Some(p) => raw[j].is_element && p == id0,
            None => false,
        };
        if is_root {
            let n = build_element(raw, j);
            assert(is_element_child(rv, 0, j as int));
            let ghost p = root_position(rv)->0;
            assert(p == j) by {
                if p < j {
                } else if p > j {
                    assert(!is_element_child(rv, 0, j as int));
                }
            }
            return Some(n);
        }
        j = j + 1;
    }
    None
}

/// The document's root element, with its element subtree. A document roxmltree rejects is an
/// error carrying the parser's message; so is a node list without a root element.
pub fn parse_document(src: &str) -> (r: Result<XmlNode, String>)
    ensures
        match roxml_parse(src@) {
            Err(e) => r is Err && r->Err_0@ == "simu.xml: "@ + e,
            Ok(raw) => match root_position(raw) {
                Some(p) => r is Ok && tree_matches(r->Ok_0, raw, p),
                None => r is Err && r->Err_0@ == "simu.xml: the document has no root element"@,
            },
        },
{
    match roxml_nodes(src) {
        Err(e) => {
            let mut m = String::from_str("simu.xml: ");
            m.append(e.as_str());
            Err(m)
        },
        Ok(raw) => match xml_tree_from_nodes(&raw) {
            Some(n) => Ok(n),
            None => Err(String::from_str("simu.xml: the document has no root element")),
        },
    }
}

} // verus!

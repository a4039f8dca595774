//! The MJCF compiler settings and default classes, as the converter resolves them: every named
//! `<default class>` under the top-level `<default>` blocks flattened into one table (at any
//! depth: one missed level silently turns collision geoms into visuals), and the lookups that
//! settle a joint's dynamics, a geom's contact style and a geom's type. A class records the
//! attribute text of its joint, geom and position defaults; the numeric layer reads the numbers.
use crate::mjcf_convert::{float_tokens, list_tokens, named};
use crate::text::str_eq;
use crate::xml::{attr_or_value, attr_value, XmlNode};
use vstd::prelude::*;

verus! {

/// One flattened default class.
#[derive(Debug)]
pub struct DefaultClass {
    pub name: String,
    /// the joint default's `damping`, `frictionloss` and `armature` ("0" when unset)
    pub damping: String,
    pub frictionloss: String,
    pub armature: String,
    /// the geom default's `contype` and `conaffinity`; a class without a geom default is solid
    pub contact: Option<(String, String)>,
    /// the geom default's `type` (empty when unset)
    pub geom_type: String,
    /// the first two numbers of the position default's `forcerange`, when it gives two
    pub force: Option<(String, String)>,
}

pub type PairView = (Seq<char>, Seq<char>);

pub type ClassView = (
    Seq<char>,
    Seq<char>,
    Seq<char>,
    Seq<char>,
    Option<PairView>,
    Seq<char>,
    Option<PairView>,
);

pub open spec fn pair_view(p: Option<(String, String)>) -> Option<PairView> {
    match p {
        Some((a, b)) => Some((a@, b@)),
        None => None,
    }
}

pub open spec fn class_view(c: DefaultClass) -> ClassView {
    (c.name@, c.damping@, c.frictionloss@, c.armature@, pair_view(c.contact), c.geom_type@, pair_view(c.force))
}

pub open spec fn classes_view(s: Seq<DefaultClass>) -> Seq<ClassView> {
    s.map_values(|c: DefaultClass| class_view(c))
}

/// A class nothing has set yet.
pub open spec fn blank_class(name: Seq<char>) -> ClassView {
    (name, "0"@, "0"@, "0"@, None, Seq::empty(), None)
}

/// One property element of a class applied over the class: a joint default sets the three joint
/// numbers, a geom default the contact flags and (when it names one) the geom type, a position
/// default with at least two forcerange numbers the force range; anything else changes nothing.
pub open spec fn apply_prop(d: ClassView, p: XmlNode) -> ClassView {
    let a = p.attrs@;
    if named(p, "joint"@) {
        (
            d.0,
            attr_or_value(a, "damping"@, "0"@),
            attr_or_value(a, "frictionloss"@, "0"@),
            attr_or_value(a, "armature"@, "0"@),
            d.4,
            d.5,
            d.6,
        )
    } else if named(p, "geom"@) {
        (
            d.0,
            d.1,
            d.2,
            d.3,
            Some((attr_or_value(a, "contype"@, "1"@), attr_or_value(a, "conaffinity"@, "1"@))),
            attr_or_value(a, "type"@, d.5),
            d.6,
        )
    } else if named(p, "position"@) && list_tokens(attr_or_value(a, "forcerange"@, ""@)).len() >= 2 {
        let fr = list_tokens(attr_or_value(a, "forcerange"@, ""@));
        (d.0, d.1, d.2, d.3, d.4, d.5, Some((fr[0], fr[1])))
    } else {
        d
    }
}

/// The property elements applied in document order.
pub open spec fn apply_props(d: ClassView, props: Seq<XmlNode>) -> ClassView
    decreases props.len(),
{
    if props.len() == 0 {
        d
    } else {
        apply_prop(apply_props(d, props.drop_last()), props.last())
    }
}

proof fn lemma_apply_props_name(d: ClassView, props: Seq<XmlNode>)
    ensures
        apply_props(d, props).0 == d.0,
    decreases props.len(),
{
    if props.len() > 0 {
        lemma_apply_props_name(d, props.drop_last());
    }
}

/// The table position of the class named `name`.
pub open spec fn class_index(t: Seq<ClassView>, name: Seq<char>) -> Option<int> {
    if exists|i: int| 0 <= i < t.len() && t[i].0 == name {
        Some(
            choose|i: int|
                0 <= i < t.len() && t[i].0 == name && forall|j: int| 0 <= j < i ==> t[j].0 != name,
        )
    } else {
        None
    }
}

/// The table after one `<default>` element: a named one folds its properties over the class of
/// that name (a blank class the first time the name comes up); an unnamed one changes nothing.
pub open spec fn record_class(t: Seq<ClassView>, c: XmlNode) -> Seq<ClassView> {
    let name = attr_or_value(c.attrs@, "class"@, ""@);
    if name.len() == 0 {
        t
    } else {
        match class_index(t, name) {
            Some(i) => t.update(i, apply_props(t[i], c.children@)),
            None => t.push(apply_props(blank_class(name), c.children@)),
        }
    }
}

/// The table after the `<default>` children of `el` below position `upto`, each recorded and
/// then its own nested classes, depth first.
pub open spec fn read_block(t: Seq<ClassView>, el: XmlNode, upto: int) -> Seq<ClassView>
    decreases el, upto,
{
    if upto <= 0 || upto > el.children@.len() {
        t
    } else {
        let t1 = read_block(t, el, upto - 1);
        let c = el.children@[upto - 1];
        if named(c, "default"@) {
            read_block(record_class(t1, c), c, c.children@.len() as int)
        } else {
            t1
        }
    }
}

/// The table after the top-level `<default>` blocks of a document below position `upto` (the
/// blocks themselves are no classes; their nested ones are).
pub open spec fn read_defaults(t: Seq<ClassView>, root: XmlNode, upto: int) -> Seq<ClassView>
    decreases upto,
{
    if upto <= 0 || upto > root.children@.len() {
        t
    } else {
        let t1 = read_defaults(t, root, upto - 1);
        let c = root.children@[upto - 1];
        if named(c, "default"@) {
            read_block(t1, c, c.children@.len() as int)
        } else {
            t1
        }
    }
}

/// The default-class table of an MJCF document.
pub open spec fn spec_default_classes(root: XmlNode) -> Seq<ClassView> {
    read_defaults(Seq::empty(), root, root.children@.len() as int)
}

/// The table holds a class named `name`.
pub open spec fn has_class(t: Seq<ClassView>, name: Seq<char>) -> bool {
    exists|i: int| 0 <= i < t.len() && t[i].0 == name
}

/// The element reached from `el` through the child positions `path`, every step landing on a
/// `<default>` element; none when a step leaves the children or lands on another element.
pub open spec fn default_at(el: XmlNode, path: Seq<int>) -> Option<XmlNode>
    decreases path.len(),
{
    if path.len() == 0 {
        Some(el)
    } else {
        let i = path[0];
        if 0 <= i < el.children@.len() && named(el.children@[i], "default"@) {
            default_at(el.children@[i], path.drop_first())
        } else {
            None
        }
    }
}

/// The class name a `<default>` element declares (empty when it declares none).
pub open spec fn class_name(c: XmlNode) -> Seq<char> {
    attr_or_value(c.attrs@, "class"@, ""@)
}

proof fn lemma_first_class(t: Seq<ClassView>, name: Seq<char>, k: int)
    requires
        0 <= k < t.len(),
        t[k].0 == name,
    ensures
        exists|i: int| 0 <= i < t.len() && t[i].0 == name && forall|j: int| 0 <= j < i ==> t[j].0 != name,
    decreases k,
{
    if exists|j: int| 0 <= j < k && t[j].0 == name {
        let j = choose|j: int| 0 <= j < k && t[j].0 == name;
        lemma_first_class(t, name, j);
    } else {
        assert(forall|j: int| 0 <= j < k ==> t[j].0 != name);
    }
}

proof fn lemma_class_index(t: Seq<ClassView>, name: Seq<char>)
    ensures
        class_index(t, name) matches Some(i) ==> 0 <= i < t.len() && t[i].0 == name,
        class_index(t, name) is Some <==> has_class(t, name),
{
    if has_class(t, name) {
        let k = choose|k: int| 0 <= k < t.len() && t[k].0 == name;
        lemma_first_class(t, name, k);
    }
}

proof fn lemma_record_keeps(t: Seq<ClassView>, c: XmlNode, name: Seq<char>)
    ensures
        has_class(t, name) ==> has_class(record_class(t, c), name),
        class_name(c).len() > 0 ==> has_class(record_class(t, c), class_name(c)),
{
    let n = class_name(c);
    lemma_class_index(t, n);
    if n.len() > 0 {
        match class_index(t, n) {
            Some(i) => {
                let t2 = t.update(i, apply_props(t[i], c.children@));
                lemma_apply_props_name(t[i], c.children@);
                assert(record_class(t, c) == t2);
                if has_class(t, name) {
                    let k = choose|k: int| 0 <= k < t.len() && t[k].0 == name;
                    if k != i {
                        assert(t2[k] == t[k]);
                    }
                    assert(t2[k].0 == name);
                }
                assert(t2[i].0 == n);
            },
            None => {
                let t2 = t.push(apply_props(blank_class(n), c.children@));
                lemma_apply_props_name(blank_class(n), c.children@);
                assert(record_class(t, c) == t2);
                if has_class(t, name) {
                    let k = choose|k: int| 0 <= k < t.len() && t[k].0 == name;
                    assert(t2[k] == t[k]);
                }
                assert(t2[t.len() as int].0 == n);
            },
        }
    }
}

proof fn lemma_block_keeps(t: Seq<ClassView>, el: XmlNode, upto: int, name: Seq<char>)
    requires
        has_class(t, name),
    ensures
        has_class(read_block(t, el, upto), name),
    decreases el, upto,
{
    if 0 < upto <= el.children@.len() {
        lemma_block_keeps(t, el, upto - 1, name);
        let t1 = read_block(t, el, upto - 1);
        let c = el.children@[upto - 1];
        if named(c, "default"@) {
            lemma_record_keeps(t1, c, name);
            lemma_block_keeps(record_class(t1, c), c, c.children@.len() as int, name);
        }
    }
}

proof fn lemma_block_finds(t: Seq<ClassView>, el: XmlNode, upto: int, path: Seq<int>)
    requires
        path.len() >= 1,
        0 <= path[0] < upto <= el.children@.len(),
        default_at(el, path) is Some,
        class_name(default_at(el, path)->0).len() > 0,
    ensures
        has_class(read_block(t, el, upto), class_name(default_at(el, path)->0)),
    decreases el, upto,
{
    let n = class_name(default_at(el, path)->0);
    let t1 = read_block(t, el, upto - 1);
    let c = el.children@[upto - 1];
    if path[0] < upto - 1 {
        lemma_block_finds(t, el, upto - 1, path);
        if named(c, "default"@) {
            lemma_record_keeps(t1, c, n);
            lemma_block_keeps(record_class(t1, c), c, c.children@.len() as int, n);
        }
    } else {
        assert(named(c, "default"@));
        let rest = path.drop_first();
        assert(default_at(el, path) == default_at(c, rest));
        if rest.len() == 0 {
            assert(default_at(c, rest) == Some(c));
            lemma_record_keeps(t1, c, n);
            lemma_block_keeps(record_class(t1, c), c, c.children@.len() as int, n);
        } else {
            lemma_block_finds(record_class(t1, c), c, c.children@.len() as int, rest);
        }
    }
}

/// Every class is read, at any depth: a named `<default>` element nested (through `<default>`
/// elements only) in a top-level `<default>` block of the document has its class in the table.
pub proof fn law_nested_classes_recorded(root: XmlNode, b: int, path: Seq<int>)
    requires
        0 <= b < root.children@.len(),
        named(root.children@[b], "default"@),
        path.len() >= 1,
        default_at(root.children@[b], path) is Some,
        class_name(default_at(root.children@[b], path)->0).len() > 0,
    ensures
        class_index(spec_default_classes(root), class_name(default_at(root.children@[b], path)->0)) is Some,
{
    let n = class_name(default_at(root.children@[b], path)->0);
    lemma_defaults_finds(Seq::empty(), root, root.children@.len() as int, b, path);
    assert(has_class(spec_default_classes(root), n));
}

proof fn lemma_defaults_finds(t: Seq<ClassView>, root: XmlNode, upto: int, b: int, path: Seq<int>)
    requires
        0 <= b < upto <= root.children@.len(),
        named(root.children@[b], "default"@),
        path.len() >= 1,
        default_at(root.children@[b], path) is Some,
        class_name(default_at(root.children@[b], path)->0).len() > 0,
    ensures
        has_class(read_defaults(t, root, upto), class_name(default_at(root.children@[b], path)->0)),
    decreases upto,
{
    let n = class_name(default_at(root.children@[b], path)->0);
    let t1 = read_defaults(t, root, upto - 1);
    let c = root.children@[upto - 1];
    if b < upto - 1 {
        lemma_defaults_finds(t, root, upto - 1, b, path);
        if named(c, "default"@) {
            lemma_block_keeps(t1, c, c.children@.len() as int, n);
        }
    } else {
        lemma_block_finds(t1, c, c.children@.len() as int, path);
    }
}

/// Every class name occurs once in the table.
pub open spec fn names_unique(t: Seq<ClassView>) -> bool {
    forall|i: int, j: int| 0 <= i < j < t.len() ==> t[i].0 != t[j].0
}

/// The position of the class named `name` in the table.
pub fn find_class(table: &Vec<DefaultClass>, name: &str) -> (r: Option<usize>)
    ensures
        r matches Some(k) ==> k < table@.len() && class_index(classes_view(table@), name@) == Some(
            k as int,
        ),
        r is None ==> class_index(classes_view(table@), name@) is None,
{
    let ghost tv = classes_view(table@);
    let mut i: usize = 0;
    while i < table.len()
        invariant
            i <= table@.len(),
            tv == classes_view(table@),
            forall|j: int| 0 <= j < i ==> tv[j].0 != name@,
        decreases table@.len() - i,
    {
        assert(tv[i as int] == class_view(table@[i as int]));
        if str_eq(table[i].name.as_str(), name) {
            let ghost c = class_index(tv, name@)->0;
            assert(c == i) by {
                if c > i {
                    assert(tv[i as int].0 == name@);
                }
            }
            return Some(i);
        }
        i = i + 1;
    }
    None
}

fn copy_pair(p: &Option<(String, String)>) -> (r: Option<(String, String)>)
    ensures
        pair_view(r) == pair_view(*p),
{
    match p {
        Some((a, b)) => Some((a.clone(), b.clone())),
        None => None,
    }
}

fn apply_props_to(d: &mut DefaultClass, props: &Vec<XmlNode>)
    ensures
        class_view(*final(d)) == apply_props(class_view(*old(d)), props@),
{
    let ghost start = class_view(*d);
    let mut i: usize = 0;
    assert(props@.take(0) =~= Seq::<XmlNode>::empty());
    while i < props.len()
        invariant
            i <= props@.len(),
            class_view(*d) == apply_props(start, props@.take(i as int)),
        decreases props@.len() - i,
    {
        let p = &props[i];
        assert(props@.take(i + 1).drop_last() =~= props@.take(i as int));
        assert(props@.take(i + 1).last() == props@[i as int]);
        proof {
            reveal_strlit("joint");
            reveal_strlit("geom");
            reveal_strlit("position");
        }
        if str_eq(p.name.as_str(), "joint") {
            d.damping = p.attr_or("damping", "0");
            d.frictionloss = p.attr_or("frictionloss", "0");
            d.armature = p.attr_or("armature", "0");
        } else if str_eq(p.name.as_str(), "geom") {
            d.contact = Some((p.attr_or("contype", "1"), p.attr_or("conaffinity", "1")));
            let gt = p.attr_or("type", d.geom_type.as_str());
            d.geom_type = gt;
        } else if str_eq(p.name.as_str(), "position") {
            let fr = float_tokens(p.attr_or("forcerange", "").as_str());
            let ghost ft = fr@.map_values(|t: String| t@);
            assert(ft.len() == fr@.len());
            if fr.len() >= 2 {
                assert(ft[0] == fr@[0]@ && ft[1] == fr@[1]@);
                d.force = Some((fr[0].clone(), fr[1].clone()));
            }
        }
        i = i + 1;
    }
    assert(props@.take(props@.len() as int) =~= props@);
}

/// Records one `<default>` element into the table.
fn record_class_into(table: &mut Vec<DefaultClass>, c: &XmlNode)
    requires
        names_unique(classes_view(old(table)@)),
    ensures
        classes_view(final(table)@) == record_class(classes_view(old(table)@), *c),
        names_unique(classes_view(final(table)@)),
{
    let name = c.attr_or("class", "");
    if name.unicode_len() == 0 {
        return;
    }
    let ghost t0 = classes_view(table@);
    match find_class(table, name.as_str()) {
        Some(k) => {
            let mut d = DefaultClass {
                name: table[k].name.clone(),
                damping: table[k].damping.clone(),
                frictionloss: table[k].frictionloss.clone(),
                armature: table[k].armature.clone(),
                contact: copy_pair(&table[k].contact),
                geom_type: table[k].geom_type.clone(),
                force: copy_pair(&table[k].force),
            };
            assert(class_view(d) == t0[k as int]);
            apply_props_to(&mut d, &c.children);
            table.set(k, d);
            assert(classes_view(table@) =~= t0.update(k as int, apply_props(t0[k as int], c.children@)));
            proof {
                lemma_apply_props_name(t0[k as int], c.children@);
                let t1 = classes_view(table@);
                assert forall|i: int| 0 <= i < t1.len() implies t1[i].0 == t0[i].0 by {
                    if i != k {
                        assert(t1[i] == t0[i]);
                    }
                }
                assert forall|i: int, j: int| 0 <= i < j < t1.len() implies t1[i].0 != t1[j].0 by {
                    assert(t1[i].0 == t0[i].0);
                    assert(t1[j].0 == t0[j].0);
                }
            }
        },
        None => {
            let mut d = DefaultClass {
                name: name.clone(),
                damping: String::from_str("0"),
                frictionloss: String::from_str("0"),
                armature: String::from_str("0"),
                contact: None,
                geom_type: String::new(),
                force: None,
            };
            proof {
                reveal_strlit("0");
            }
            assert(class_view(d) == blank_class(name@));
            apply_props_to(&mut d, &c.children);
            table.push(d);
            assert(classes_view(table@) =~= t0.push(apply_props(blank_class(name@), c.children@)));
            proof {
                lemma_apply_props_name(blank_class(name@), c.children@);
            }
            assert forall|i: int| 0 <= i < t0.len() implies t0[i].0 != name@ by {
                if t0[i].0 == name@ {
                    assert(class_index(t0, name@) is Some);
                }
            }
        },
    }
}

/// Reads the `<default>` children of `el`, depth first, into the table.
fn read_block_into(table: &mut Vec<DefaultClass>, el: &XmlNode)
    requires
        names_unique(classes_view(old(table)@)),
    ensures
        classes_view(final(table)@) == read_block(classes_view(old(table)@), *el, el.children@.len() as int),
        names_unique(classes_view(final(table)@)),
    decreases *el,
{
    let ghost t0 = classes_view(table@);
    let ch = &el.children;
    let mut i: usize = 0;
    while i < ch.len()
        invariant
            i <= ch@.len(),
            ch == el.children,
            names_unique(classes_view(table@)),
            classes_view(table@) == read_block(t0, *el, i as int),
        decreases ch@.len() - i,
    {
        if str_eq(ch[i].name.as_str(), "default") {
            record_class_into(table, &ch[i]);
            read_block_into(table, &ch[i]);
        }
        i = i + 1;
    }
}

/// Reads the default classes of an MJCF document into a table: the nested classes of each
/// top-level `<default>` block, in document order, folded over what the table already holds.
pub fn read_defaults_into(table: &mut Vec<DefaultClass>, root: &XmlNode)
    requires
        names_unique(classes_view(old(table)@)),
    ensures
        classes_view(final(table)@) == read_defaults(classes_view(old(table)@), *root, root.children@.len() as int),
        names_unique(classes_view(final(table)@)),
{
    let ghost t0 = classes_view(table@);
    let ch = &root.children;
    let mut i: usize = 0;
    while i < ch.len()
        invariant
            i <= ch@.len(),
            ch == root.children,
            names_unique(classes_view(table@)),
            classes_view(table@) == read_defaults(t0, *root, i as int),
        decreases ch@.len() - i,
    {
        if str_eq(ch[i].name.as_str(), "default") {
            read_block_into(table, &ch[i]);
        }
        i = i + 1;
    }
}

/// The flattened default classes of an MJCF document, one entry per class name.
pub fn default_classes(root: &XmlNode) -> (r: Vec<DefaultClass>)
    ensures
        classes_view(r@) == spec_default_classes(*root),
        names_unique(classes_view(r@)),
{
    let mut table: Vec<DefaultClass> = Vec::new();
    assert(classes_view(table@) =~= Seq::<ClassView>::empty());
    read_defaults_into(&mut table, root);
    table
}

/// The class named `name` as a lookup sees it: the table's entry, or a blank class when the name
/// is empty or the table has none.
pub open spec fn class_or_blank(t: Seq<ClassView>, name: Seq<char>) -> ClassView {
    if name.len() == 0 {
        blank_class(name)
    } else {
        match class_index(t, name) {
            Some(i) => t[i],
            None => blank_class(name),
        }
    }
}

/// A joint element's effective damping, frictionloss and armature text: the element's own
/// attribute where it has one, else its class's (the element's `class`, else the childclass it
/// inherits from the enclosing bodies).
pub open spec fn spec_joint_dynamics(t: Seq<ClassView>, el: XmlNode, childclass: Seq<char>) -> (
    Seq<char>,
    Seq<char>,
    Seq<char>,
) {
    let a = el.attrs@;
    let d = class_or_blank(t, attr_or_value(a, "class"@, childclass));
    (attr_or_value(a, "damping"@, d.1), attr_or_value(a, "frictionloss"@, d.2), attr_or_value(a, "armature"@, d.3))
}

/// A joint element's effective damping, frictionloss and armature text.
pub fn joint_dynamics(table: &Vec<DefaultClass>, el: &XmlNode, childclass: &str) -> (r: (
    String,
    String,
    String,
))
    ensures
        (r.0@, r.1@, r.2@) == spec_joint_dynamics(classes_view(table@), *el, childclass@),
{
    let cls = el.attr_or("class", childclass);
    let (damping, frictionloss, armature) = if cls.unicode_len() == 0 {
        (String::from_str("0"), String::from_str("0"), String::from_str("0"))
    } else {
        match find_class(table, cls.as_str()) {
            Some(k) => {
                assert(classes_view(table@)[k as int] == class_view(table@[k as int]));
                (table[k].damping.clone(), table[k].frictionloss.clone(), table[k].armature.clone())
            },
            None => (String::from_str("0"), String::from_str("0"), String::from_str("0")),
        }
    };
    proof {
        reveal_strlit("0");
    }
    (
        el.attr_or("damping", damping.as_str()),
        el.attr_or("frictionloss", frictionloss.as_str()),
        el.attr_or("armature", armature.as_str()),
    )
}

/// One dynamics number of a joint element: the element's own attribute `key` when it carries one;
/// else, when the element's class (its `class` attribute, else `childclass`) is a class of the
/// table, the value that class recorded (`pick` selects it); else "0".
pub open spec fn joint_number(
    t: Seq<ClassView>,
    el: XmlNode,
    childclass: Seq<char>,
    key: Seq<char>,
    pick: spec_fn(ClassView) -> Seq<char>,
) -> Seq<char> {
    let cls = match attr_value(el.attrs@, "class"@) {
        Some(c) => c,
        None => childclass,
    };
    match attr_value(el.attrs@, key) {
        Some(v) => v,
        None => if cls.len() > 0 && exists|i: int| 0 <= i < t.len() && t[i].0 == cls {
            pick(t[choose|i: int| 0 <= i < t.len() && t[i].0 == cls])
        } else {
            "0"@
        },
    }
}

/// A joint's own damping, frictionloss and armature attributes override its class's; without
/// them the class's values hold (a table holds one class per name), and without a class, zero.
pub proof fn law_joint_dynamics_override(t: Seq<ClassView>, el: XmlNode, childclass: Seq<char>)
    requires
        names_unique(t),
    ensures
        ({
            let r = spec_joint_dynamics(t, el, childclass);
            &&& r.0 == joint_number(t, el, childclass, "damping"@, |c: ClassView| c.1)
            &&& r.1 == joint_number(t, el, childclass, "frictionloss"@, |c: ClassView| c.2)
            &&& r.2 == joint_number(t, el, childclass, "armature"@, |c: ClassView| c.3)
        }),
{
    let cls = attr_or_value(el.attrs@, "class"@, childclass);
    lemma_class_index(t, cls);
    if cls.len() > 0 && has_class(t, cls) {
        let i = class_index(t, cls)->0;
        let k = choose|k: int| 0 <= k < t.len() && t[k].0 == cls;
        assert(k == i) by {
            if k != i {
                if k < i {
                    assert(t[k].0 != t[i].0);
                } else {
                    assert(t[i].0 != t[k].0);
                }
            }
        }
    }
    reveal_strlit("0");
}

/// A geom's contact style: None for a collision geom; otherwise the contype and conaffinity text
/// that decide it (a visual geom exactly when both read as zero). The two contact classes by name
/// are collision geoms; an unclassed geom, or one of an unknown class, goes by its own flags
/// (absent ones read as zero); a known class by its geom default's flags, and a class without a
/// geom default is a collision class.
pub open spec fn spec_geom_contact(t: Seq<ClassView>, el: XmlNode) -> Option<PairView> {
    let a = el.attrs@;
    let cls = attr_or_value(a, "class"@, ""@);
    let own = Some((attr_or_value(a, "contype"@, "0"@), attr_or_value(a, "conaffinity"@, "0"@)));
    if cls == "collision"@ || cls == "self_collision_only"@ {
        None
    } else if cls.len() == 0 {
        own
    } else {
        match class_index(t, cls) {
            Some(i) => t[i].4,
            None => own,
        }
    }
}

/// A geom's contact style (None for a collision geom).
pub fn geom_contact(table: &Vec<DefaultClass>, el: &XmlNode) -> (r: Option<(String, String)>)
    ensures
        pair_view(r) == spec_geom_contact(classes_view(table@), *el),
{
    let cls = el.attr_or("class", "");
    if str_eq(cls.as_str(), "collision") || str_eq(cls.as_str(), "self_collision_only") {
        return None;
    }
    if cls.unicode_len() > 0 {
        match find_class(table, cls.as_str()) {
            Some(k) => {
                assert(classes_view(table@)[k as int] == class_view(table@[k as int]));
                return copy_pair(&table[k].contact);
            },
            None => {},
        }
    }
    Some((el.attr_or("contype", "0"), el.attr_or("conaffinity", "0")))
}

/// A geom's type: its own `type`, else its class's geom type, else a mesh.
pub open spec fn spec_geom_type(t: Seq<ClassView>, el: XmlNode) -> Seq<char> {
    let a = el.attrs@;
    let own = attr_or_value(a, "type"@, ""@);
    let g = if own.len() > 0 {
        own
    } else {
        match class_index(t, attr_or_value(a, "class"@, ""@)) {
            Some(i) => t[i].5,
            None => own,
        }
    };
    if g.len() == 0 {
        "mesh"@
    } else {
        g
    }
}

/// A geom's effective type.
pub fn geom_type(table: &Vec<DefaultClass>, el: &XmlNode) -> (r: String)
    ensures
        r@ == spec_geom_type(classes_view(table@), *el),
{
    let own = el.attr_or("type", "");
    let g = if own.unicode_len() > 0 {
        own
    } else {
        match find_class(table, el.attr_or("class", "").as_str()) {
            Some(k) => {
                assert(classes_view(table@)[k as int] == class_view(table@[k as int]));
                table[k].geom_type.clone()
            },
            None => own,
        }
    };
    if g.unicode_len() == 0 {
        String::from_str("mesh")
    } else {
        g
    }
}

} // verus!

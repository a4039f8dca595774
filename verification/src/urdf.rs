//! The serial chain read from a URDF: the joint and link records as the document states them, and
//! the chain ordering from base link to end link. Only all-revolute serial chains are supported,
//! with fixed joints allowed only at the END (they fold into the terminal tip offset): a fixed joint
//! mid-chain is rejected rather than folded, since folding it would silently drop a joint from the
//! q vector. The numbers (origins, axes, inertias) are read from the recorded attribute text by the
//! numeric layer.
use crate::models::{path_join, spec_root, z1_urdf};
use crate::text::{cat, opt_view, push_char, str_eq};
use crate::xml::{attr_or_value, XmlNode};
use vstd::prelude::*;

verus! {

/// The value of `key` on the last child element named `tag` (`default` when that element lacks the
/// attribute); with `skip_empty`, children whose value is empty do not count.
pub open spec fn last_child_value(
    children: Seq<XmlNode>,
    tag: Seq<char>,
    key: Seq<char>,
    default: Seq<char>,
    skip_empty: bool,
) -> Option<Seq<char>>
    decreases children.len(),
{
    if children.len() == 0 {
        None
    } else {
        let c = children.last();
        let v = attr_or_value(c.attrs@, key, default);
        if c.name@ == tag && !(skip_empty && v.len() == 0) {
            Some(v)
        } else {
            last_child_value(children.drop_last(), tag, key, default, skip_empty)
        }
    }
}

fn last_child_value_of(
    children: &Vec<XmlNode>,
    tag: &str,
    key: &str,
    default: &str,
    skip_empty: bool,
) -> (r: Option<String>)
    ensures
        opt_view(r) == last_child_value(children@, tag@, key@, default@, skip_empty),
{
    let mut i = children.len();
    assert(children@.take(i as int) =~= children@);
    while i > 0
        invariant
            i <= children@.len(),
            last_child_value(children@, tag@, key@, default@, skip_empty) == last_child_value(
                children@.take(i as int),
                tag@,
                key@,
                default@,
                skip_empty,
            ),
        decreases i,
    {
        assert(children@.take(i as int).drop_last() =~= children@.take(i - 1));
        let c = &children[i - 1];
        if str_eq(c.name.as_str(), tag) {
            let v = c.attr_or(key, default);
            if !(skip_empty && v.unicode_len() == 0) {
                return Some(v);
            }
        }
        i = i - 1;
    }
    None
}

/// The text of an optional value, empty when absent.
pub open spec fn or_empty(o: Option<Seq<char>>) -> Seq<char> {
    match o {
        Some(v) => v,
        None => Seq::empty(),
    }
}

fn unwrap_or_empty(o: Option<String>) -> (r: String)
    ensures
        r@ == or_empty(opt_view(o)),
{
    match o {
        Some(v) => v,
        None => String::new(),
    }
}

/// The pieces of `s` between single spaces, empty pieces included (`str::split(' ')`).
pub open spec fn space_pieces(s: Seq<char>) -> Seq<Seq<char>>
    decreases s.len(),
{
    if s.len() == 0 {
        seq![Seq::empty()]
    } else {
        let p = space_pieces(s.drop_last());
        if s.last() == ' ' {
            p.push(Seq::empty())
        } else {
            p.update(p.len() - 1, p.last().push(s.last()))
        }
    }
}

proof fn lemma_space_pieces_nonempty(s: Seq<char>)
    ensures
        space_pieces(s).len() >= 1,
    decreases s.len(),
{
    if s.len() > 0 {
        lemma_space_pieces_nonempty(s.drop_last());
    }
}

pub open spec fn strings_view(v: Seq<String>) -> Seq<Seq<char>> {
    v.map_values(|t: String| t@)
}

/// Piece `i`, or empty when there are fewer pieces.
pub open spec fn piece_or_empty(p: Seq<Seq<char>>, i: int) -> Seq<char> {
    if 0 <= i < p.len() {
        p[i]
    } else {
        Seq::empty()
    }
}

/// The pieces of a text split on single spaces.
pub fn split_spaces(s: &str) -> (r: Vec<String>)
    ensures
        strings_view(r@) == space_pieces(s@),
{
    let n = s.unicode_len();
    let mut out: Vec<String> = Vec::new();
    let mut cur = String::new();
    let mut i: usize = 0;
    assert(s@.take(0) =~= Seq::<char>::empty());
    while i < n
        invariant
            n == s@.len(),
            i <= n,
            space_pieces(s@.take(i as int)).len() >= 1,
            cur@ == space_pieces(s@.take(i as int)).last(),
            strings_view(out@) == space_pieces(s@.take(i as int)).drop_last(),
        decreases n - i,
    {
        let c = s.get_char(i);
        let ghost p = space_pieces(s@.take(i as int));
        assert(s@.take(i + 1).drop_last() =~= s@.take(i as int));
        assert(s@.take(i + 1).last() == c);
        if c == ' ' {
            let ghost before = out@;
            out.push(cur);
            assert(strings_view(out@) =~= strings_view(before).push(p.last()));
            assert(p.push(Seq::<char>::empty()).drop_last() =~= p);
            assert(p.drop_last().push(p.last()) =~= p);
            cur = String::new();
        } else {
            push_char(&mut cur, c);
            let ghost q = p.update(p.len() - 1, p.last().push(c));
            assert(q.drop_last() =~= p.drop_last());
        }
        proof {
            lemma_space_pieces_nonempty(s@.take(i + 1));
        }
        i = i + 1;
    }
    assert(s@.take(n as int) =~= s@);
    let ghost p = space_pieces(s@);
    let ghost before = out@;
    out.push(cur);
    assert(strings_view(out@) =~= strings_view(before).push(p.last()));
    assert(p.drop_last().push(p.last()) =~= p);
    out
}

/// The three component texts of a URDF vector attribute: the first three pieces of the text split
/// on single spaces. A doubled separator leaves an empty piece (which reads as zero) rather than
/// shifting the rest of the vector; a missing piece is empty.
pub fn vec3_parts(s: &str) -> (r: Vec<String>)
    ensures
        r@.len() == 3,
        forall|i: int| 0 <= i < 3 ==> (#[trigger] r@[i])@ == piece_or_empty(space_pieces(s@), i),
{
    let p = split_spaces(s);
    let mut out: Vec<String> = Vec::new();
    let mut i: usize = 0;
    while i < 3
        invariant
            i <= 3,
            strings_view(p@) == space_pieces(s@),
            out@.len() == i,
            forall|k: int| 0 <= k < i ==> (#[trigger] out@[k])@ == piece_or_empty(space_pieces(s@), k),
        decreases 3 - i,
    {
        if i < p.len() {
            assert(strings_view(p@)[i as int] == p@[i as int]@);
            out.push(p[i].clone());
        } else {
            out.push(String::new());
        }
        i = i + 1;
    }
    out
}

/// One `<joint>` element as the URDF states it: the joint's name, type and the two link names it
/// connects, and the attribute text of its origin, axis, damping and limits. An origin or axis
/// component the text leaves out reads as zero; an absent axis is +z, an absent damping zero and
/// an absent limit unbounded.
#[derive(Debug)]
pub struct JointDecl {
    pub name: String,
    pub jtype: String,
    pub parent: String,
    pub child: String,
    /// `xyz` and `rpy` of the last `<origin>` (empty when there is none)
    pub xyz: String,
    pub rpy: String,
    /// `xyz` of the last `<axis>`, if there is one
    pub axis: Option<String>,
    /// the last non-empty `damping` of a `<dynamics>`
    pub damping: Option<String>,
    /// the last non-empty `lower` and `upper` of a `<limit>`
    pub lower: Option<String>,
    pub upper: Option<String>,
}

/// `d` records the joint element `el`.
pub open spec fn joint_decl_of(d: JointDecl, el: XmlNode) -> bool {
    let ch = el.children@;
    &&& d.name@ == attr_or_value(el.attrs@, "name"@, ""@)
    &&& d.jtype@ == attr_or_value(el.attrs@, "type"@, ""@)
    &&& d.parent@ == or_empty(last_child_value(ch, "parent"@, "link"@, ""@, false))
    &&& d.child@ == or_empty(last_child_value(ch, "child"@, "link"@, ""@, false))
    &&& d.xyz@ == or_empty(last_child_value(ch, "origin"@, "xyz"@, ""@, false))
    &&& d.rpy@ == or_empty(last_child_value(ch, "origin"@, "rpy"@, ""@, false))
    &&& opt_view(d.axis) == last_child_value(ch, "axis"@, "xyz"@, ""@, false)
    &&& opt_view(d.damping) == last_child_value(ch, "dynamics"@, "damping"@, ""@, true)
    &&& opt_view(d.lower) == last_child_value(ch, "limit"@, "lower"@, ""@, true)
    &&& opt_view(d.upper) == last_child_value(ch, "limit"@, "upper"@, ""@, true)
}

/// Reads one `<joint>` element.
pub fn parse_joint(el: &XmlNode) -> (d: JointDecl)
    ensures
        joint_decl_of(d, *el),
{
    let ch = &el.children;
    JointDecl {
        name: el.attr_or("name", ""),
        jtype: el.attr_or("type", ""),
        parent: unwrap_or_empty(last_child_value_of(ch, "parent", "link", "", false)),
        child: unwrap_or_empty(last_child_value_of(ch, "child", "link", "", false)),
        xyz: unwrap_or_empty(last_child_value_of(ch, "origin", "xyz", "", false)),
        rpy: unwrap_or_empty(last_child_value_of(ch, "origin", "rpy", "", false)),
        axis: last_child_value_of(ch, "axis", "xyz", "", false),
        damping: last_child_value_of(ch, "dynamics", "damping", "", true),
        lower: last_child_value_of(ch, "limit", "lower", "", true),
        upper: last_child_value_of(ch, "limit", "upper", "", true),
    }
}

/// The value of `key` on the last element named `tag` inside the `<inertial>` blocks of a link,
/// taken in document order.
pub open spec fn last_inertial_value(
    children: Seq<XmlNode>,
    tag: Seq<char>,
    key: Seq<char>,
    default: Seq<char>,
) -> Option<Seq<char>>
    decreases children.len(),
{
    if children.len() == 0 {
        None
    } else {
        let c = children.last();
        let inner = if c.name@ == "inertial"@ {
            last_child_value(c.children@, tag, key, default, false)
        } else {
            None
        };
        match inner {
            Some(v) => Some(v),
            None => last_inertial_value(children.drop_last(), tag, key, default),
        }
    }
}

fn last_inertial_value_of(children: &Vec<XmlNode>, tag: &str, key: &str, default: &str) -> (r:
    String)
    ensures
        r@ == or_empty(last_inertial_value(children@, tag@, key@, default@)),
{
    let mut i = children.len();
    assert(children@.take(i as int) =~= children@);
    while i > 0
        invariant
            i <= children@.len(),
            last_inertial_value(children@, tag@, key@, default@) == last_inertial_value(
                children@.take(i as int),
                tag@,
                key@,
                default@,
            ),
        decreases i,
    {
        assert(children@.take(i as int).drop_last() =~= children@.take(i - 1));
        let c = &children[i - 1];
        if str_eq(c.name.as_str(), "inertial") {
            match last_child_value_of(&c.children, tag, key, default, false) {
                Some(v) => {
                    return v;
                },
                None => {},
            }
        }
        i = i - 1;
    }
    String::new()
}

/// One `<link>` element as the URDF states it: its name and the attribute text of its inertial
/// record (center of mass, inertial frame rotation, mass and the six inertia entries). A value the
/// text leaves out reads as zero.
#[derive(Debug)]
pub struct LinkDecl {
    pub name: String,
    pub com: String,
    pub rpy: String,
    pub mass: String,
    pub ixx: String,
    pub iyy: String,
    pub izz: String,
    pub ixy: String,
    pub ixz: String,
    pub iyz: String,
}

/// `d` records the link element `el`.
pub open spec fn link_decl_of(d: LinkDecl, el: XmlNode) -> bool {
    let ch = el.children@;
    &&& d.name@ == attr_or_value(el.attrs@, "name"@, ""@)
    &&& d.com@ == or_empty(last_inertial_value(ch, "origin"@, "xyz"@, ""@))
    &&& d.rpy@ == or_empty(last_inertial_value(ch, "origin"@, "rpy"@, ""@))
    &&& d.mass@ == or_empty(last_inertial_value(ch, "mass"@, "value"@, ""@))
    &&& d.ixx@ == or_empty(last_inertial_value(ch, "inertia"@, "ixx"@, "0"@))
    &&& d.iyy@ == or_empty(last_inertial_value(ch, "inertia"@, "iyy"@, "0"@))
    &&& d.izz@ == or_empty(last_inertial_value(ch, "inertia"@, "izz"@, "0"@))
    &&& d.ixy@ == or_empty(last_inertial_value(ch, "inertia"@, "ixy"@, "0"@))
    &&& d.ixz@ == or_empty(last_inertial_value(ch, "inertia"@, "ixz"@, "0"@))
    &&& d.iyz@ == or_empty(last_inertial_value(ch, "inertia"@, "iyz"@, "0"@))
}

/// Reads one `<link>` element.
pub fn parse_link(el: &XmlNode) -> (d: LinkDecl)
    ensures
        link_decl_of(d, *el),
{
    let ch = &el.children;
    LinkDecl {
        name: el.attr_or("name", ""),
        com: last_inertial_value_of(ch, "origin", "xyz", ""),
        rpy: last_inertial_value_of(ch, "origin", "rpy", ""),
        mass: last_inertial_value_of(ch, "mass", "value", ""),
        ixx: last_inertial_value_of(ch, "inertia", "ixx", "0"),
        iyy: last_inertial_value_of(ch, "inertia", "iyy", "0"),
        izz: last_inertial_value_of(ch, "inertia", "izz", "0"),
        ixy: last_inertial_value_of(ch, "inertia", "ixy", "0"),
        ixz: last_inertial_value_of(ch, "inertia", "ixz", "0"),
        iyz: last_inertial_value_of(ch, "inertia", "iyz", "0"),
    }
}

/// The positions, below `upto`, of the children of a robot element named `tag`.
pub open spec fn tagged(children: Seq<XmlNode>, tag: Seq<char>, upto: int) -> Seq<int>
    decreases upto,
{
    if upto <= 0 {
        Seq::empty()
    } else {
        let s = tagged(children, tag, upto - 1);
        if children[upto - 1].name@ == tag {
            s.push(upto - 1)
        } else {
            s
        }
    }
}

/// The joint and link records of a robot element, each list in document order.
pub fn robot_decls(robot: &XmlNode) -> (r: (Vec<JointDecl>, Vec<LinkDecl>))
    ensures
        ({
            let js = tagged(robot.children@, "joint"@, robot.children@.len() as int);
            let ls = tagged(robot.children@, "link"@, robot.children@.len() as int);
            &&& r.0@.len() == js.len()
            &&& forall|k: int|
                0 <= k < js.len() ==> joint_decl_of(#[trigger] r.0@[k], robot.children@[js[k]])
            &&& r.1@.len() == ls.len()
            &&& forall|k: int|
                0 <= k < ls.len() ==> link_decl_of(#[trigger] r.1@[k], robot.children@[ls[k]])
        }),
{
    let mut joints: Vec<JointDecl> = Vec::new();
    let mut links: Vec<LinkDecl> = Vec::new();
    let mut i: usize = 0;
    while i < robot.children.len()
        invariant
            i <= robot.children@.len(),
            joints@.len() == tagged(robot.children@, "joint"@, i as int).len(),
            forall|k: int|
                0 <= k < tagged(robot.children@, "joint"@, i as int).len() ==> joint_decl_of(
                    #[trigger] joints@[k],
                    robot.children@[tagged(robot.children@, "joint"@, i as int)[k]],
                ),
            links@.len() == tagged(robot.children@, "link"@, i as int).len(),
            forall|k: int|
                0 <= k < tagged(robot.children@, "link"@, i as int).len() ==> link_decl_of(
                    #[trigger] links@[k],
                    robot.children@[tagged(robot.children@, "link"@, i as int)[k]],
                ),
        decreases robot.children@.len() - i,
    {
        let el = &robot.children[i];
        let ghost js = tagged(robot.children@, "joint"@, i as int);
        let ghost ls = tagged(robot.children@, "link"@, i as int);
        let ghost oj = joints@;
        let ghost ol = links@;
        proof {
            reveal_strlit("joint");
            reveal_strlit("link");
            assert("joint"@.len() != "link"@.len());
        }
        if str_eq(el.name.as_str(), "joint") {
            joints.push(parse_joint(el));
            assert(el.name@ != "link"@);
            assert(tagged(robot.children@, "joint"@, i + 1) == js.push(i as int));
            assert(tagged(robot.children@, "link"@, i + 1) == ls);
        } else if str_eq(el.name.as_str(), "link") {
            links.push(parse_link(el));
            assert(tagged(robot.children@, "link"@, i + 1) == ls.push(i as int));
            assert(tagged(robot.children@, "joint"@, i + 1) == js);
        } else {
            assert(tagged(robot.children@, "link"@, i + 1) == ls);
            assert(tagged(robot.children@, "joint"@, i + 1) == js);
        }
        let ghost js2 = tagged(robot.children@, "joint"@, i + 1);
        let ghost ls2 = tagged(robot.children@, "link"@, i + 1);
        assert forall|k: int| 0 <= k < js2.len() implies joint_decl_of(
            #[trigger] joints@[k],
            robot.children@[js2[k]],
        ) by {
            if k < oj.len() {
                assert(joints@[k] == oj[k]);
                assert(js2[k] == js[k]);
            }
        }
        assert forall|k: int| 0 <= k < ls2.len() implies link_decl_of(
            #[trigger] links@[k],
            robot.children@[ls2[k]],
        ) by {
            if k < ol.len() {
                assert(links@[k] == ol[k]);
                assert(ls2[k] == ls[k]);
            }
        }
        i = i + 1;
    }
    (joints, links)
}

/// The last link record named `name`: a link's record, as a name-keyed table built in document
/// order holds it.
pub open spec fn link_by_name(ls: Seq<LinkDecl>, name: Seq<char>) -> Option<int>
    decreases ls.len(),
{
    if ls.len() == 0 {
        None
    } else if ls.last().name@ == name {
        Some(ls.len() - 1)
    } else {
        link_by_name(ls.drop_last(), name)
    }
}

/// The record of the link named `name`.
pub fn find_link(ls: &Vec<LinkDecl>, name: &str) -> (r: Option<usize>)
    ensures
        r matches Some(k) ==> k < ls@.len() && link_by_name(ls@, name@) == Some(k as int),
        r is None ==> link_by_name(ls@, name@) is None,
{
    let mut i = ls.len();
    assert(ls@.take(i as int) =~= ls@);
    while i > 0
        invariant
            i <= ls@.len(),
            link_by_name(ls@, name@) == link_by_name(ls@.take(i as int), name@),
        decreases i,
    {
        assert(ls@.take(i as int).drop_last() =~= ls@.take(i - 1));
        if str_eq(ls[i - 1].name.as_str(), name) {
            assert(ls@.take(i as int).last() == ls@[i - 1]);
            return Some(i - 1);
        }
        i = i - 1;
    }
    None
}

/// The positions of a sequence of indices, as integers.
pub open spec fn ints(s: Seq<usize>) -> Seq<int> {
    s.map_values(|x: usize| x as int)
}

/// The last joint whose child link is `c`: a link's parent joint, as a child-keyed table built in
/// document order records it.
pub open spec fn joint_by_child(js: Seq<JointDecl>, c: Seq<char>) -> Option<int>
    decreases js.len(),
{
    if js.len() == 0 {
        None
    } else if js.last().child@ == c {
        Some(js.len() - 1)
    } else {
        joint_by_child(js.drop_last(), c)
    }
}

/// The joints met walking from link `cur` toward `base` through the links' parent joints, tip
/// first, taking at most `steps` joints: the walk stops at a link that is no joint's child, and
/// after the joint whose parent is `base`.
pub open spec fn walk_to_base(js: Seq<JointDecl>, base: Seq<char>, cur: Seq<char>, steps: nat) -> Seq<
    int,
>
    decreases steps,
{
    if steps == 0 {
        Seq::empty()
    } else {
        match joint_by_child(js, cur) {
            None => Seq::empty(),
            Some(k) => if js[k].parent@ == base {
                seq![k]
            } else {
                seq![k] + walk_to_base(js, base, js[k].parent@, (steps - 1) as nat)
            },
        }
    }
}

/// How many of the walked joints, from the tip, are fixed joints.
pub open spec fn leading_fixed(js: Seq<JointDecl>, rev: Seq<int>) -> nat
    decreases rev.len(),
{
    if rev.len() == 0 || js[rev[0]].jtype@ != "fixed"@ {
        0
    } else {
        1 + leading_fixed(js, rev.drop_first())
    }
}

pub open spec fn no_chain_msg(base: Seq<char>, end: Seq<char>) -> Seq<char> {
    "simu.urdf_chain: no serial chain from "@ + base + " to "@ + end
}

pub open spec fn no_revolute_msg(base: Seq<char>, end: Seq<char>) -> Seq<char> {
    "simu.urdf_chain: no revolute joints from "@ + base + " to "@ + end
}

/// The serial chain from `base` to `end`: the revolute joints in chain order from the base, and
/// the fixed joints at the tip in the order they fold into the tip offset (the one nearest the
/// terminal revolute link last). The walk goes backward from `end` through each link's parent
/// joint (unambiguous for branching models) and stops at `base`; it takes at most one joint more
/// than there are joints, since a walk that long has met a link twice and can never reach `base`.
pub open spec fn spec_plan_chain(js: Seq<JointDecl>, base: Seq<char>, end: Seq<char>) -> Result<
    (Seq<int>, Seq<int>),
    Seq<char>,
> {
    let rev = walk_to_base(js, base, end, (js.len() + 1) as nat);
    if rev.len() == 0 || js[rev.last()].parent@ != base {
        Err(no_chain_msg(base, end))
    } else {
        let f = leading_fixed(js, rev) as int;
        let rest = rev.skip(f);
        if rest.len() == 0 {
            Err(no_revolute_msg(base, end))
        } else if exists|k: int| 0 <= k < rest.len() && js[rest[k]].jtype@ != "revolute"@ {
            Err("simu.urdf_chain: only revolute joints are supported inside a serial chain"@)
        } else {
            Ok((rest.reverse(), rev.take(f)))
        }
    }
}

/// A serial chain's joints: the revolute joints from the base to the end link, and the fixed
/// joints past the last of them, which fold into the tip offset in this order.
#[derive(Debug)]
pub struct ChainPlan {
    pub joints: Vec<usize>,
    pub tip_fixed: Vec<usize>,
}

fn find_by_child(js: &Vec<JointDecl>, c: &str) -> (r: Option<usize>)
    ensures
        r matches Some(k) ==> joint_by_child(js@, c@) == Some(k as int),
        r is None ==> joint_by_child(js@, c@) is None,
{
    let mut i = js.len();
    assert(js@.take(i as int) =~= js@);
    while i > 0
        invariant
            i <= js@.len(),
            joint_by_child(js@, c@) == joint_by_child(js@.take(i as int), c@),
        decreases i,
    {
        assert(js@.take(i as int).drop_last() =~= js@.take(i - 1));
        if str_eq(js[i - 1].child.as_str(), c) {
            assert(js@.take(i as int).last() == js@[i - 1]);
            return Some(i - 1);
        }
        i = i - 1;
    }
    None
}

proof fn lemma_walk_bounds(js: Seq<JointDecl>, base: Seq<char>, cur: Seq<char>, steps: nat)
    ensures
        forall|k: int|
            0 <= k < walk_to_base(js, base, cur, steps).len() ==> 0 <= #[trigger] walk_to_base(
                js,
                base,
                cur,
                steps,
            )[k] < js.len(),
    decreases steps,
{
    if steps > 0 {
        lemma_by_child_bounds(js, cur);
        match joint_by_child(js, cur) {
            None => {},
            Some(k) => {
                lemma_walk_bounds(js, base, js[k].parent@, (steps - 1) as nat);
                let w = walk_to_base(js, base, cur, steps);
                let sub = walk_to_base(js, base, js[k].parent@, (steps - 1) as nat);
                assert forall|i: int| 0 <= i < w.len() implies 0 <= #[trigger] w[i] < js.len() by {
                    if i > 0 {
                        assert(w[i] == sub[i - 1]);
                    }
                }
            },
        }
    }
}

proof fn lemma_by_child_bounds(js: Seq<JointDecl>, c: Seq<char>)
    ensures
        joint_by_child(js, c) matches Some(k) ==> 0 <= k < js.len(),
    decreases js.len(),
{
    if js.len() > 0 {
        lemma_by_child_bounds(js.drop_last(), c);
    }
}

proof fn lemma_by_child_child(js: Seq<JointDecl>, c: Seq<char>)
    ensures
        joint_by_child(js, c) matches Some(k) ==> 0 <= k < js.len() && js[k].child@ == c,
    decreases js.len(),
{
    if js.len() > 0 && js.last().child@ != c {
        lemma_by_child_child(js.drop_last(), c);
        if let Some(k) = joint_by_child(js.drop_last(), c) {
            assert(js.drop_last()[k] == js[k]);
        }
    }
}

proof fn lemma_walk_links(js: Seq<JointDecl>, base: Seq<char>, cur: Seq<char>, steps: nat)
    ensures
        ({
            let w = walk_to_base(js, base, cur, steps);
            &&& w.len() > 0 ==> js[w[0]].child@ == cur
            &&& forall|i: int| 0 <= i < w.len() - 1 ==> js[#[trigger] w[i]].parent@ == js[w[i + 1]].child@
        }),
    decreases steps,
{
    if steps > 0 {
        lemma_by_child_child(js, cur);
        match joint_by_child(js, cur) {
            None => {},
            Some(k) => {
                if js[k].parent@ != base {
                    let sub = walk_to_base(js, base, js[k].parent@, (steps - 1) as nat);
                    lemma_walk_links(js, base, js[k].parent@, (steps - 1) as nat);
                    let w = walk_to_base(js, base, cur, steps);
                    assert forall|i: int| 0 <= i < w.len() - 1 implies js[#[trigger] w[i]].parent@ == js[w[i + 1]].child@ by {
                        assert(w[i + 1] == sub[i]);
                        if i > 0 {
                            assert(w[i] == sub[i - 1]);
                        }
                    }
                }
            },
        }
    }
}

/// The planned chain is a path of the model from `base` to `end`: walked from the end link, the
/// tip's fixed joints and then the revolute joints from the tip back to the base link each hang
/// off the link the previous one hangs from; the first ends at `end` and the last starts at
/// `base`. The chain's joints are all revolute, the tip's all fixed.
pub proof fn law_chain_is_a_path(js: Seq<JointDecl>, base: Seq<char>, end: Seq<char>)
    ensures
        spec_plan_chain(js, base, end) matches Ok((chain, tip)) ==> {
            let rev = tip + chain.reverse();
            &&& rev.len() > 0
            &&& forall|i: int| 0 <= i < rev.len() ==> 0 <= #[trigger] rev[i] < js.len()
            &&& js[rev[0]].child@ == end
            &&& forall|i: int| 0 <= i < rev.len() - 1 ==> js[#[trigger] rev[i]].parent@ == js[rev[i + 1]].child@
            &&& js[rev.last()].parent@ == base
            &&& forall|i: int| 0 <= i < chain.len() ==> js[#[trigger] chain[i]].jtype@ == "revolute"@
            &&& forall|i: int| 0 <= i < tip.len() ==> js[#[trigger] tip[i]].jtype@ == "fixed"@
        },
{
    let w = walk_to_base(js, base, end, (js.len() + 1) as nat);
    if let Ok((chain, tip)) = spec_plan_chain(js, base, end) {
        let f = leading_fixed(js, w) as int;
        lemma_walk_links(js, base, end, (js.len() + 1) as nat);
        lemma_walk_bounds(js, base, end, (js.len() + 1) as nat);
        lemma_leading_fixed(js, w);
        assert(tip + chain.reverse() =~= w) by {
            assert(chain == w.skip(f).reverse());
            assert(w.skip(f).reverse().reverse() =~= w.skip(f));
            assert(w.take(f) + w.skip(f) =~= w);
        }
        assert forall|i: int| 0 <= i < chain.len() implies js[#[trigger] chain[i]].jtype@ == "revolute"@ by {
            let rest = w.skip(f);
            assert(chain[i] == rest[rest.len() - 1 - i]);
        }
    }
}

proof fn lemma_leading_fixed(js: Seq<JointDecl>, rev: Seq<int>)
    ensures
        leading_fixed(js, rev) <= rev.len(),
        forall|i: int| 0 <= i < leading_fixed(js, rev) ==> js[#[trigger] rev[i]].jtype@ == "fixed"@,
    decreases rev.len(),
{
    if rev.len() > 0 && js[rev[0]].jtype@ == "fixed"@ {
        lemma_leading_fixed(js, rev.drop_first());
        assert forall|i: int| 0 <= i < leading_fixed(js, rev) implies js[#[trigger] rev[i]].jtype@ == "fixed"@ by {
            if i > 0 {
                assert(rev[i] == rev.drop_first()[i - 1]);
            }
        }
    }
}

/// Among more values than there are slots, two are the same.
pub(crate) proof fn lemma_pigeonhole(c: Seq<int>, n: int)
    requires
        0 <= n < c.len(),
        forall|i: int| 0 <= i < c.len() ==> 0 <= #[trigger] c[i] < n,
    ensures
        exists|i: int, j: int| 0 <= i < j < c.len() && c[i] == c[j],
{
    if c.no_duplicates() {
        c.unique_seq_to_set();
        vstd::set_lib::lemma_int_range(0, n);
        let r = vstd::set_lib::set_int_range(0, n);
        assert forall|x: int| c.to_set().contains(x) implies r.contains(x) by {
            assert(c.contains(x));
            let i = choose|i: int| 0 <= i < c.len() && c[i] == x;
            assert(0 <= c[i] < n);
        }
        vstd::set_lib::lemma_len_subset(c.to_set(), r);
    } else {
        let (i, j) = choose|i: int, j: int| 0 <= i < c.len() && 0 <= j < c.len() && i != j && c[i] == c[j];
        if i < j {
            assert(0 <= i < j < c.len() && c[i] == c[j]);
        } else {
            assert(0 <= j < i < c.len() && c[j] == c[i]);
        }
    }
}

/// The link a back walk reaches before its joint at position `i`: `end`, then each joint's parent.
pub open spec fn link_before(js: Seq<JointDecl>, end: Seq<char>, c: Seq<int>, i: int) -> Seq<char> {
    if i == 0 {
        end
    } else {
        js[c[i - 1]].parent@
    }
}

/// A walk back from `end` that reaches `base`: each joint is its link's parent joint (as the
/// child-keyed table holds it), each next link is the previous joint's parent, and the last
/// joint, and no earlier one, hangs from `base`.
pub open spec fn back_walk(js: Seq<JointDecl>, base: Seq<char>, end: Seq<char>, c: Seq<int>) -> bool {
    &&& c.len() >= 1
    &&& forall|i: int|
        0 <= i < c.len() ==> joint_by_child(js, link_before(js, end, c, i)) == Some(#[trigger] c[i])
    &&& forall|i: int| 0 <= i < c.len() - 1 ==> js[#[trigger] c[i]].parent@ != base
    &&& js[c.last()].parent@ == base
}

/// Walking back through the links' parent joints from `end` reaches `base`, in any number of steps.
pub open spec fn reaches_base(js: Seq<JointDecl>, base: Seq<char>, end: Seq<char>) -> bool {
    exists|c: Seq<int>| back_walk(js, base, end, c)
}

proof fn lemma_walk_is_back_walk(js: Seq<JointDecl>, base: Seq<char>, cur: Seq<char>, steps: nat)
    ensures
        ({
            let w = walk_to_base(js, base, cur, steps);
            w.len() > 0 && js[w.last()].parent@ == base ==> back_walk(js, base, cur, w)
        }),
    decreases steps,
{
    if steps > 0 {
        match joint_by_child(js, cur) {
            None => {},
            Some(k) => {
                if js[k].parent@ != base {
                    let q = js[k].parent@;
                    lemma_walk_is_back_walk(js, base, q, (steps - 1) as nat);
                    let w2 = walk_to_base(js, base, q, (steps - 1) as nat);
                    let w = seq![k] + w2;
                    if w.len() > 0 && js[w.last()].parent@ == base {
                        assert(w2.len() > 0);
                        assert(w.last() == w2.last());
                        assert forall|i: int| 0 <= i < w.len() implies joint_by_child(
                            js,
                            link_before(js, cur, w, i),
                        ) == Some(#[trigger] w[i]) by {
                            if i > 0 {
                                assert(w[i] == w2[i - 1]);
                                if i > 1 {
                                    assert(w[i - 1] == w2[i - 2]);
                                }
                                assert(link_before(js, cur, w, i) == link_before(js, q, w2, i - 1));
                            }
                        }
                        assert forall|i: int| 0 <= i < w.len() - 1 implies js[#[trigger] w[i]].parent@
                            != base by {
                            if i > 0 {
                                assert(w[i] == w2[i - 1]);
                            }
                        }
                    }
                }
            },
        }
    }
}

proof fn lemma_back_walk_is_walk(
    js: Seq<JointDecl>,
    base: Seq<char>,
    cur: Seq<char>,
    c: Seq<int>,
    steps: nat,
)
    requires
        back_walk(js, base, cur, c),
        c.len() <= steps,
    ensures
        walk_to_base(js, base, cur, steps) == c,
    decreases c.len(),
{
    let k = c[0];
    assert(joint_by_child(js, link_before(js, cur, c, 0)) == Some(c[0]));
    if c.len() == 1 {
        assert(c =~= seq![k]);
    } else {
        let q = js[k].parent@;
        let c2 = c.drop_first();
        assert(js[c[0]].parent@ != base);
        assert forall|i: int| 0 <= i < c2.len() implies joint_by_child(js, link_before(js, q, c2, i))
            == Some(#[trigger] c2[i]) by {
            assert(c2[i] == c[i + 1]);
            assert(joint_by_child(js, link_before(js, cur, c, i + 1)) == Some(c[i + 1]));
            if i > 0 {
                assert(c2[i - 1] == c[i]);
            }
        }
        assert forall|i: int| 0 <= i < c2.len() - 1 implies js[#[trigger] c2[i]].parent@ != base by {
            assert(c2[i] == c[i + 1]);
        }
        assert(c2.last() == c.last());
        lemma_back_walk_is_walk(js, base, q, c2, (steps - 1) as nat);
        assert(seq![k] + c2 =~= c);
    }
}

/// A back walk longer than there are joints meets a joint twice; cutting out the loop between the
/// two leaves a shorter back walk.
proof fn lemma_back_walk_shortens(js: Seq<JointDecl>, base: Seq<char>, end: Seq<char>, c: Seq<int>)
    requires
        back_walk(js, base, end, c),
        c.len() > js.len(),
    ensures
        exists|d: Seq<int>| back_walk(js, base, end, d) && d.len() < c.len(),
{
    assert forall|i: int| 0 <= i < c.len() implies 0 <= #[trigger] c[i] < js.len() by {
        assert(joint_by_child(js, link_before(js, end, c, i)) == Some(c[i]));
        lemma_by_child_child(js, link_before(js, end, c, i));
    }
    lemma_pigeonhole(c, js.len() as int);
    let (i, j) = choose|i: int, j: int| 0 <= i < j < c.len() && c[i] == c[j];
    let d = c.take(i) + c.skip(j);
    let sh = j - i;
    assert(d.len() == c.len() - sh);
    assert forall|m: int| 0 <= m < d.len() implies d[m] == (if m < i {
        c[m]
    } else {
        c[m + sh]
    }) by {}
    assert forall|m: int| 0 <= m < d.len() implies joint_by_child(js, link_before(js, end, d, m))
        == Some(#[trigger] d[m]) by {
        if m < i {
            assert(joint_by_child(js, link_before(js, end, c, m)) == Some(c[m]));
            if m > 0 {
                assert(d[m - 1] == c[m - 1]);
            }
        } else if m == i {
            assert(joint_by_child(js, link_before(js, end, c, i)) == Some(c[i]));
            if m > 0 {
                assert(d[m - 1] == c[m - 1]);
            }
        } else {
            assert(joint_by_child(js, link_before(js, end, c, m + sh)) == Some(c[m + sh]));
            assert(d[m - 1] == c[m - 1 + sh]);
        }
    }
    assert forall|m: int| 0 <= m < d.len() - 1 implies js[#[trigger] d[m]].parent@ != base by {
        if m < i {
            assert(d[m] == c[m]);
        } else {
            assert(d[m] == c[m + sh]);
        }
    }
    assert(d.last() == c.last());
    assert(back_walk(js, base, end, d));
}

proof fn lemma_short_back_walk(js: Seq<JointDecl>, base: Seq<char>, end: Seq<char>, c: Seq<int>)
    requires
        back_walk(js, base, end, c),
    ensures
        exists|d: Seq<int>| back_walk(js, base, end, d) && d.len() <= js.len(),
    decreases c.len(),
{
    if c.len() > js.len() {
        lemma_back_walk_shortens(js, base, end, c);
        let d = choose|d: Seq<int>| back_walk(js, base, end, d) && d.len() < c.len();
        lemma_short_back_walk(js, base, end, d);
    }
}

/// There is no serial chain exactly when walking back from `end` through each link's parent joint
/// never reaches `base`, in however many steps (an unknown end link included).
pub proof fn law_no_chain_iff_base_unreached(js: Seq<JointDecl>, base: Seq<char>, end: Seq<char>)
    ensures
        (spec_plan_chain(js, base, end) == Err::<(Seq<int>, Seq<int>), Seq<char>>(no_chain_msg(base, end)))
            <==> !reaches_base(js, base, end),
{
    let n = (js.len() + 1) as nat;
    let w = walk_to_base(js, base, end, n);
    lemma_walk_is_back_walk(js, base, end, n);
    reveal_strlit("simu.urdf_chain: no serial chain from ");
    reveal_strlit("simu.urdf_chain: no revolute joints from ");
    reveal_strlit("simu.urdf_chain: only revolute joints are supported inside a serial chain");
    if reaches_base(js, base, end) {
        let c = choose|c: Seq<int>| back_walk(js, base, end, c);
        lemma_short_back_walk(js, base, end, c);
        let d = choose|d: Seq<int>| back_walk(js, base, end, d) && d.len() <= js.len();
        lemma_back_walk_is_walk(js, base, end, d, n);
        assert(w.len() > 0 && js[w.last()].parent@ == base);
        assert(no_chain_msg(base, end)[20] == 's');
        assert(no_revolute_msg(base, end)[20] == 'r');
        assert(no_chain_msg(base, end)[17] == 'n');
        assert("simu.urdf_chain: only revolute joints are supported inside a serial chain"@[17] == 'o');
    } else {
        if w.len() > 0 && js[w.last()].parent@ == base {
            assert(back_walk(js, base, end, w));
        }
    }
}

/// Plans the serial chain from `base` to `end` over the joint records of a URDF.
pub fn plan_chain(js: &Vec<JointDecl>, base: &str, end: &str) -> (r: Result<ChainPlan, String>)
    ensures
        match spec_plan_chain(js@, base@, end@) {
            Ok((chain, tip)) => r is Ok && ints(r->Ok_0.joints@) == chain && ints(
                r->Ok_0.tip_fixed@,
            ) == tip,
            Err(e) => r is Err && r->Err_0@ == e,
        },
{
    let n = js.len();
    let ghost full = walk_to_base(js@, base@, end@, (n + 1) as nat);
    let mut rev: Vec<usize> = Vec::new();
    let mut cur = String::from_str(end);
    let mut taken: usize = 0;
    proof {
        lemma_walk_bounds(js@, base@, end@, (n + 1) as nat);
    }
    loop
        invariant_except_break
            taken <= n,
            ints(rev@) + walk_to_base(js@, base@, cur@, (n + 1 - taken) as nat) == full,
        ensures
            ints(rev@) == full,
        decreases n - taken,
    {
        let ghost before = rev@;
        let ghost rem = (n + 1 - taken) as nat;
        proof {
            lemma_by_child_bounds(js@, cur@);
        }
        match find_by_child(js, cur.as_str()) {
            None => {
                assert(walk_to_base(js@, base@, cur@, rem) == Seq::<int>::empty());
                assert(ints(rev@) =~= ints(before));
                assert(ints(rev@) + Seq::<int>::empty() =~= ints(rev@));
                break ;
            },
            Some(k) => {
                assert(joint_by_child(js@, cur@) == Some(k as int));
                rev.push(k);
                assert(ints(rev@) =~= ints(before).push(k as int));
                let p = js[k].parent.clone();
                if str_eq(p.as_str(), base) {
                    assert(walk_to_base(js@, base@, cur@, rem) == seq![k as int]);
                    assert(ints(before) + seq![k as int] =~= ints(rev@));
                    break ;
                }
                let ghost next = walk_to_base(js@, base@, p@, (rem - 1) as nat);
                assert(walk_to_base(js@, base@, cur@, rem) == seq![k as int] + next);
                assert(ints(before) + (seq![k as int] + next) =~= ints(rev@) + next);
                if taken == n {
                    assert(next == Seq::<int>::empty());
                    assert(ints(rev@) + next =~= ints(rev@));
                    break ;
                }
                cur = p;
                taken = taken + 1;
            },
        }
    }
    let ghost rv = ints(rev@);
    if rev.len() == 0 || !str_eq(js[rev[rev.len() - 1]].parent.as_str(), base) {
        let m = cat(cat(cat("simu.urdf_chain: no serial chain from ", base).as_str(), " to ").as_str(), end);
        return Err(m);
    }
    assert(rv.last() == rev@[rev@.len() - 1] as int);
    // the fixed joints at the tip
    let mut f: usize = 0;
    assert(rv.skip(0) =~= rv);
    while f < rev.len() && str_eq(js[rev[f]].jtype.as_str(), "fixed")
        invariant
            rv == ints(rev@),
            rv == full,
            forall|k: int| 0 <= k < rv.len() ==> 0 <= #[trigger] rv[k] < js@.len(),
            f <= rev@.len(),
            leading_fixed(js@, rv) == f + leading_fixed(js@, rv.skip(f as int)),
        decreases rev@.len() - f,
    {
        assert(rv.skip(f as int).drop_first() =~= rv.skip(f + 1));
        assert(rv.skip(f as int)[0] == rv[f as int]);
        f = f + 1;
    }
    proof {
        if f < rev.len() {
            assert(rv.skip(f as int)[0] == rv[f as int]);
        }
        assert(leading_fixed(js@, rv.skip(f as int)) == 0);
    }
    if f == rev.len() {
        let m = cat(cat(cat("simu.urdf_chain: no revolute joints from ", base).as_str(), " to ").as_str(), end);
        assert(rv.skip(f as int).len() == 0);
        return Err(m);
    }
    let mut g: usize = f;
    while g < rev.len()
        invariant
            rv == ints(rev@),
            forall|k: int| 0 <= k < rv.len() ==> 0 <= #[trigger] rv[k] < js@.len(),
            f <= g <= rev@.len(),
            f < rev@.len(),
            rv == full,
            full == walk_to_base(js@, base@, end@, (js@.len() + 1) as nat),
            rv.len() > 0,
            js@[rv.last()].parent@ == base@,
            leading_fixed(js@, rv) == f,
            forall|k: int| f <= k < g ==> js@[#[trigger] rv[k]].jtype@ == "revolute"@,
        decreases rev@.len() - g,
    {
        assert(rv[g as int] == rev@[g as int] as int);
        if !str_eq(js[rev[g]].jtype.as_str(), "revolute") {
            let ghost rest = rv.skip(f as int);
            assert(rest[g - f] == rv[g as int]);
            assert(0 <= g - f < rest.len() && js@[rest[g - f]].jtype@ != "revolute"@);
            assert(exists|k: int| 0 <= k < rest.len() && js@[rest[k]].jtype@ != "revolute"@);
            return Err(
                String::from_str(
                    "simu.urdf_chain: only revolute joints are supported inside a serial chain",
                ),
            );
        }
        g = g + 1;
    }
    let ghost rest = rv.skip(f as int);
    assert forall|k: int| 0 <= k < rest.len() implies js@[rest[k]].jtype@ == "revolute"@ by {
        assert(rest[k] == rv[k + f]);
    }
    let mut joints: Vec<usize> = Vec::new();
    let mut t = rev.len();
    while t > f
        invariant
            rv == ints(rev@),
            f <= t <= rev@.len(),
            ints(joints@) =~= rv.subrange(t as int, rev@.len() as int).reverse(),
        decreases t,
    {
        t = t - 1;
        joints.push(rev[t]);
        assert(rv.subrange(t as int, rev@.len() as int).reverse() =~= rv.subrange(
            t + 1,
            rev@.len() as int,
        ).reverse().push(rv[t as int]));
    }
    let mut tip_fixed: Vec<usize> = Vec::new();
    let mut u: usize = 0;
    while u < f
        invariant
            rv == ints(rev@),
            u <= f <= rev@.len(),
            ints(tip_fixed@) =~= rv.take(u as int),
        decreases f - u,
    {
        let ghost old_t = tip_fixed@;
        tip_fixed.push(rev[u]);
        assert(ints(tip_fixed@) =~= ints(old_t).push(rev@[u as int] as int));
        assert(rv.take(u + 1) =~= rv.take(u as int).push(rv[u as int]));
        u = u + 1;
    }
    assert(rv.subrange(f as int, rev@.len() as int) =~= rest);
    Ok(ChainPlan { joints, tip_fixed })
}

/// The Z1 arm's URDF, as a path under the crate directory.
pub fn urdf_path(crate_dir: &str) -> (r: String)
    ensures
        r@ == path_join(path_join(spec_root(crate_dir@), "z1"@), "z1.urdf"@),
{
    z1_urdf(crate_dir)
}

} // verus!

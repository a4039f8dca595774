//! BodyTree, a kinematic tree with a floating root: the serial chain generalized to the biped's
//! shape (trunk, two legs, a neck). This module holds the tree's topology — its bodies, each body's
//! parent and joint, and the q order of the actuated joints — as read from the URDF's joint and link
//! records. Parse scope: revolute joints plus one type="floating" root (or a rootless root link);
//! other joint types are rejected. The q order is the ENGINE's canonical order, not the document's:
//! children sorted alphanumerically by child link name, depth-first pre-order.
use crate::text::{cat, lemma_seq_lt_irrefl, lemma_seq_lt_trans, seq_lt, str_eq, str_lt};
use crate::urdf::{ints, lemma_pigeonhole, JointDecl, LinkDecl};
use vstd::prelude::*;

verus! {

/// One body of the tree: its name, its parent body (-1 for the root), the joint that moves it and
/// that joint's slot in q (-1 for the root).
#[derive(Debug)]
pub struct TreeNode {
    pub name: String,
    /// node index of the parent body (-1 for the root)
    pub parent: i32,
    pub joint: String,
    /// this node's joint's index into q (-1 for the root)
    pub jo: i32,
    /// the position of this node's joint among the URDF's joint records (none for the root)
    pub decl: Option<usize>,
}

#[derive(Debug)]
pub struct BodyTree {
    pub urdf: String,
    /// parents before children, in the engine's depth-first order
    pub nodes: Vec<TreeNode>,
    pub root: usize,
    /// actuated joints in q order
    pub q_names: Vec<String>,
}

/// The first position of `name` in `names`.
pub open spec fn first_name_index(names: Seq<String>, name: Seq<char>) -> Option<int> {
    if exists|i: int| 0 <= i < names.len() && names[i]@ == name {
        Some(
            choose|i: int|
                0 <= i < names.len() && names[i]@ == name && forall|j: int|
                    0 <= j < i ==> names[j]@ != name,
        )
    } else {
        None
    }
}

/// The first body named `name`.
pub open spec fn first_node_named(nodes: Seq<TreeNode>, name: Seq<char>) -> Option<int> {
    if exists|i: int| 0 <= i < nodes.len() && nodes[i].name@ == name {
        Some(
            choose|i: int|
                0 <= i < nodes.len() && nodes[i].name@ == name && forall|j: int|
                    0 <= j < i ==> nodes[j].name@ != name,
        )
    } else {
        None
    }
}

/// The first body whose joint sits in q slot `qj`.
pub open spec fn first_node_of_q(nodes: Seq<TreeNode>, qj: int) -> Option<int> {
    if exists|i: int| 0 <= i < nodes.len() && nodes[i].jo == qj {
        Some(
            choose|i: int|
                0 <= i < nodes.len() && nodes[i].jo == qj && forall|j: int|
                    0 <= j < i ==> nodes[j].jo != qj,
        )
    } else {
        None
    }
}

/// The contact table's slot of body `ni`: slot `s` carries body `s + 1`, and the floating root
/// (body 0) rides the last slot.
pub open spec fn contact_slot(n_nodes: int, ni: int) -> int {
    if ni == 0 {
        n_nodes - 1
    } else {
        ni - 1
    }
}

/// Every body's parent comes before it (or it has none).
pub open spec fn parents_precede(nodes: Seq<TreeNode>) -> bool {
    forall|i: int| 0 <= i < nodes.len() ==> -1 <= (#[trigger] nodes[i]).parent < i
}

/// The q slots of the joints on the path from the root to body `i`, root first.
pub open spec fn path_slots(nodes: Seq<TreeNode>, i: int) -> Seq<usize>
    decreases i,
{
    if i < 0 || i >= nodes.len() {
        Seq::empty()
    } else {
        let nd = nodes[i];
        let pre = if 0 <= nd.parent < i {
            path_slots(nodes, nd.parent as int)
        } else {
            Seq::empty()
        };
        if nd.jo >= 0 {
            pre.push(nd.jo as usize)
        } else {
            pre
        }
    }
}

impl BodyTree {
    /// The number of actuated joints.
    pub fn n_q(&self) -> (r: usize)
        ensures
            r == self.q_names@.len(),
    {
        self.q_names.len()
    }

    /// The number of generalized velocities: the base twist (6) plus the joint rates.
    pub fn nv(&self) -> (r: usize)
        requires
            self.q_names@.len() + 6 <= usize::MAX,
        ensures
            r == 6 + self.q_names@.len(),
    {
        6 + self.q_names.len()
    }

    /// The q slot of the joint named `name`.
    pub fn q_index(&self, name: &str) -> (r: Option<usize>)
        ensures
            r matches Some(k) ==> first_name_index(self.q_names@, name@) == Some(k as int),
            r is None ==> first_name_index(self.q_names@, name@) is None,
    {
        let mut i: usize = 0;
        while i < self.q_names.len()
            invariant
                i <= self.q_names@.len(),
                forall|j: int| 0 <= j < i ==> self.q_names@[j]@ != name@,
            decreases self.q_names@.len() - i,
        {
            if str_eq(self.q_names[i].as_str(), name) {
                let ghost c = first_name_index(self.q_names@, name@)->0;
                assert(c == i) by {
                    if c > i {
                        assert(self.q_names@[i as int]@ == name@);
                    }
                }
                return Some(i);
            }
            i = i + 1;
        }
        None
    }

    /// The body moved by the joint in q slot `qj`.
    pub fn node_of_q(&self, qj: usize) -> (r: Option<usize>)
        ensures
            r matches Some(k) ==> first_node_of_q(self.nodes@, qj as int) == Some(k as int),
            r is None ==> first_node_of_q(self.nodes@, qj as int) is None,
    {
        let mut i: usize = 0;
        while i < self.nodes.len()
            invariant
                i <= self.nodes@.len(),
                forall|j: int| 0 <= j < i ==> self.nodes@[j].jo != qj as int,
            decreases self.nodes@.len() - i,
        {
            let jo = self.nodes[i].jo;
            if jo >= 0 && jo as usize == qj {
                assert(self.nodes@[i as int].jo == qj as int);
                let ghost c = first_node_of_q(self.nodes@, qj as int)->0;
                assert(c == i) by {
                    if c > i {
                        assert(self.nodes@[i as int].jo == qj as int);
                    }
                }
                return Some(i);
            }
            assert(self.nodes@[i as int].jo != qj as int);
            i = i + 1;
        }
        None
    }

    /// The body named `name`.
    pub fn node_index(&self, name: &str) -> (r: Option<usize>)
        ensures
            r matches Some(k) ==> first_node_named(self.nodes@, name@) == Some(k as int),
            r is None ==> first_node_named(self.nodes@, name@) is None,
    {
        let mut i: usize = 0;
        while i < self.nodes.len()
            invariant
                i <= self.nodes@.len(),
                forall|j: int| 0 <= j < i ==> self.nodes@[j].name@ != name@,
            decreases self.nodes@.len() - i,
        {
            if str_eq(self.nodes[i].name.as_str(), name) {
                let ghost c = first_node_named(self.nodes@, name@)->0;
                assert(c == i) by {
                    if c > i {
                        assert(self.nodes@[i as int].name@ == name@);
                    }
                }
                return Some(i);
            }
            i = i + 1;
        }
        None
    }

    /// The slot the engine's per-link CONTACT TABLE reports `name` under, or None for an unknown
    /// name. Slot `s` carries node `s + 1` and the floating root (node 0) rides the LAST slot, so a
    /// caller must say the link's NAME, never a slot number.
    pub fn contact_slot_of(&self, name: &str) -> (r: Option<usize>)
        ensures
            match first_node_named(self.nodes@, name@) {
                Some(i) => r == Some(contact_slot(self.nodes@.len() as int, i) as usize),
                None => r is None,
            },
    {
        match self.node_index(name) {
            None => None,
            Some(ni) => Some(if ni == 0 {
                self.nodes.len() - 1
            } else {
                ni - 1
            }),
        }
    }

    /// The q slots on the path from the root to node `i`, root first.
    pub fn path_joints(&self, i: usize) -> (r: Vec<usize>)
        requires
            i < self.nodes@.len() <= i32::MAX,
            parents_precede(self.nodes@),
        ensures
            r@ == path_slots(self.nodes@, i as int),
    {
        let mut out: Vec<usize> = Vec::new();
        self.path_joints_into(i, &mut out);
        out
    }

    /// `path_joints` into a caller's buffer (the mass matrix needs a path per node).
    pub fn path_joints_into(&self, i: usize, out: &mut Vec<usize>)
        requires
            i < self.nodes@.len() <= i32::MAX,
            parents_precede(self.nodes@),
        ensures
            final(out)@ == path_slots(self.nodes@, i as int),
    {
        out.clear();
        let ns = &self.nodes;
        let mut up: Vec<usize> = Vec::new();
        let mut cur: i32 = i as i32;
        let ghost target = path_slots(ns@, i as int);
        while cur >= 0
            invariant
                parents_precede(ns@),
                -1 <= cur < ns@.len(),
                target == path_slots(ns@, i as int),
                target == path_slots(ns@, cur as int) + up@.reverse(),
            decreases cur + 1,
        {
            let nd = &ns[cur as usize];
            let ghost pre = if 0 <= nd.parent < cur {
                path_slots(ns@, nd.parent as int)
            } else {
                Seq::empty()
            };
            let ghost old_up = up@;
            assert(-1 <= nd.parent < cur);
            if nd.jo >= 0 {
                up.push(nd.jo as usize);
                assert(up@.reverse() =~= seq![nd.jo as usize] + old_up.reverse());
                assert(path_slots(ns@, cur as int) == pre.push(nd.jo as usize));
                assert(pre.push(nd.jo as usize) + old_up.reverse() =~= pre + up@.reverse());
            } else {
                assert(path_slots(ns@, cur as int) == pre);
            }
            if nd.parent < 0 {
                assert(path_slots(ns@, nd.parent as int) =~= Seq::<usize>::empty());
            }
            cur = nd.parent;
        }
        assert(path_slots(ns@, cur as int) =~= Seq::<usize>::empty());
        assert(target =~= up@.reverse());
        let mut t = up.len();
        while t > 0
            invariant
                t <= up@.len(),
                target =~= up@.reverse(),
                out@ =~= up@.subrange(t as int, up@.len() as int).reverse(),
            decreases t,
        {
            t = t - 1;
            out.push(up[t]);
            assert(up@.subrange(t as int, up@.len() as int).reverse() =~= up@.subrange(
                t + 1,
                up@.len() as int,
            ).reverse().push(up@[t as int]));
        }
        assert(up@.subrange(0, up@.len() as int) =~= up@);
    }

    /// Every body after the root hangs off an earlier body and is moved by the joint in the q slot
    /// one below its index; the root (body 0) has neither parent nor joint.
    pub open spec fn well_formed(self) -> bool {
        let ns = self.nodes@;
        &&& 1 <= ns.len() <= i32::MAX
        &&& self.root == 0
        &&& ns[0].parent == -1
        &&& ns[0].jo == -1
        &&& self.q_names@.len() + 1 == ns.len()
        &&& forall|i: int|
            1 <= i < ns.len() ==> 0 <= (#[trigger] ns[i]).parent < i && ns[i].jo == i - 1
                && ns[i].joint@ == self.q_names@[i - 1]@
    }
}

/// In a well-formed tree the joint in q slot `qj` moves body `qj + 1`, and a slot past the last
/// joint moves no body.
pub proof fn law_q_slot_body(t: BodyTree, qj: int)
    requires
        t.well_formed(),
        qj >= 0,
    ensures
        qj < t.q_names@.len() ==> first_node_of_q(t.nodes@, qj) == Some(qj + 1),
        qj >= t.q_names@.len() ==> first_node_of_q(t.nodes@, qj) is None,
{
    let ns = t.nodes@;
    if qj < t.q_names@.len() {
        assert(ns[qj + 1].jo == qj);
        assert forall|j: int| 0 <= j < qj + 1 implies ns[j].jo != qj by {
            if j > 0 {
                assert(ns[j].jo == j - 1);
            }
        }
        let c = first_node_of_q(ns, qj)->0;
        assert(c == qj + 1) by {
            if c < qj + 1 {
                assert(ns[c].jo != qj);
            } else if c > qj + 1 {
                assert(ns[qj + 1].jo == qj);
            }
        }
    } else {
        assert forall|i: int| 0 <= i < ns.len() implies ns[i].jo != qj by {
            if i > 0 {
                assert(ns[i].jo == i - 1);
            }
        }
    }
}

/// In a well-formed tree every body's parent comes before it, so the path of any body is defined,
/// and the path's q slots run root first, strictly increasing, below the body's own index, ending
/// with the body's own joint (the root's path is empty).
pub proof fn law_path_root_first(t: BodyTree, i: int)
    requires
        t.well_formed(),
        0 <= i < t.nodes@.len(),
    ensures
        parents_precede(t.nodes@),
        forall|a: int, b: int|
            0 <= a < b < path_slots(t.nodes@, i).len() ==> path_slots(t.nodes@, i)[a] < path_slots(
                t.nodes@,
                i,
            )[b],
        forall|a: int| 0 <= a < path_slots(t.nodes@, i).len() ==> path_slots(t.nodes@, i)[a] < i,
        i == 0 ==> path_slots(t.nodes@, i).len() == 0,
        i > 0 ==> path_slots(t.nodes@, i).len() > 0 && path_slots(t.nodes@, i).last() == i - 1,
    decreases i,
{
    let ns = t.nodes@;
    assert forall|j: int| 0 <= j < ns.len() implies -1 <= (#[trigger] ns[j]).parent < j by {
        if j > 0 {
            assert(0 <= ns[j].parent < j);
        }
    }
    if i > 0 {
        let p = ns[i].parent as int;
        law_path_root_first(t, p);
        let pre = path_slots(ns, p);
        let ps = path_slots(ns, i);
        assert(ps == pre.push((i - 1) as usize));
        assert forall|a: int, b: int| 0 <= a < b < ps.len() implies ps[a] < ps[b] by {
            if b == ps.len() - 1 {
                assert(ps[a] == pre[a]);
            } else {
                assert(ps[a] == pre[a]);
                assert(ps[b] == pre[b]);
            }
        }
        assert forall|a: int| 0 <= a < ps.len() implies ps[a] < i by {
            if a < pre.len() {
                assert(ps[a] == pre[a]);
            }
        }
    }
}

/// In a well-formed tree the contact slots of the bodies are all different and all inside the
/// table: the slot map is a permutation of the body indices.
pub proof fn law_contact_slots_distinct(t: BodyTree, a: int, b: int)
    requires
        t.well_formed(),
        0 <= a < t.nodes@.len(),
        0 <= b < t.nodes@.len(),
    ensures
        0 <= contact_slot(t.nodes@.len() as int, a) < t.nodes@.len(),
        contact_slot(t.nodes@.len() as int, a) == contact_slot(t.nodes@.len() as int, b) ==> a == b,
{
}

/// A body as plain values: name, parent index, joint name, q slot, joint record (-1 for none).
pub type NodeView = (Seq<char>, int, Seq<char>, int, int);

pub open spec fn node_view(n: TreeNode) -> NodeView {
    (
        n.name@,
        n.parent as int,
        n.joint@,
        n.jo as int,
        match n.decl {
            Some(k) => k as int,
            None => -1,
        },
    )
}

pub open spec fn nodes_view(s: Seq<TreeNode>) -> Seq<NodeView> {
    s.map_values(|n: TreeNode| node_view(n))
}

pub open spec fn names_view(s: Seq<String>) -> Seq<Seq<char>> {
    s.map_values(|x: String| x@)
}

pub open spec fn joint_names_of(s: Seq<NodeView>) -> Seq<Seq<char>> {
    s.map_values(|n: NodeView| n.2)
}

pub open spec fn is_floating(j: JointDecl) -> bool {
    j.jtype@ == "floating"@
}

/// Two floating joints, the first of them naming a child: a second floating root.
pub open spec fn float_error(js: Seq<JointDecl>, n: int) -> bool {
    exists|i: int, k: int|
        0 <= i < k < n && is_floating(js[i]) && js[i].child@.len() > 0 && is_floating(js[k])
}

/// The child link of the last floating joint below position `n` (empty when there is none).
pub open spec fn last_floating_child(js: Seq<JointDecl>, n: int) -> Seq<char>
    decreases n,
{
    if n <= 0 {
        Seq::empty()
    } else if is_floating(js[n - 1]) {
        js[n - 1].child@
    } else {
        last_floating_child(js, n - 1)
    }
}

pub open spec fn is_child_link(js: Seq<JointDecl>, name: Seq<char>) -> bool {
    exists|k: int| 0 <= k < js.len() && js[k].child@ == name
}

/// Two links that are no joint's child, the first of them named: a second root link.
pub open spec fn root_link_error(js: Seq<JointDecl>, ls: Seq<LinkDecl>, n: int) -> bool {
    exists|i: int, k: int|
        0 <= i < k < n && !is_child_link(js, ls[i].name@) && ls[i].name@.len() > 0
            && !is_child_link(js, ls[k].name@)
}

/// The last link below position `n` that is no joint's child (empty when there is none).
pub open spec fn last_root_link(js: Seq<JointDecl>, ls: Seq<LinkDecl>, n: int) -> Seq<char>
    decreases n,
{
    if n <= 0 {
        Seq::empty()
    } else if !is_child_link(js, ls[n - 1].name@) {
        ls[n - 1].name@
    } else {
        last_root_link(js, ls, n - 1)
    }
}

/// The floating root: the child of an explicit type="floating" joint, else the unique link that
/// is no joint's child (the engine's own convention).
pub open spec fn spec_root_link(js: Seq<JointDecl>, ls: Seq<LinkDecl>) -> Result<Seq<char>, Seq<char>> {
    if float_error(js, js.len() as int) {
        Err("simu.body_tree: multiple floating joints"@)
    } else if last_floating_child(js, js.len() as int).len() > 0 {
        Ok(last_floating_child(js, js.len() as int))
    } else if root_link_error(js, ls, ls.len() as int) {
        Err("simu.body_tree: multiple root links"@)
    } else if last_root_link(js, ls, ls.len() as int).len() == 0 {
        Err("simu.body_tree: no root link found"@)
    } else {
        Ok(last_root_link(js, ls, ls.len() as int))
    }
}

pub open spec fn has_link(ls: Seq<LinkDecl>, name: Seq<char>) -> bool {
    exists|k: int| 0 <= k < ls.len() && ls[k].name@ == name
}

/// A joint of a type the tree does not take.
pub open spec fn is_unsupported(j: JointDecl) -> bool {
    !is_floating(j) && j.jtype@ != "revolute"@
}

/// The tree joints hanging off link `p` below position `upto`, in document order.
pub open spec fn kids(js: Seq<JointDecl>, p: Seq<char>, upto: int) -> Seq<int>
    decreases upto,
{
    if upto <= 0 {
        Seq::empty()
    } else {
        let s = kids(js, p, upto - 1);
        if !is_floating(js[upto - 1]) && js[upto - 1].parent@ == p {
            s.push(upto - 1)
        } else {
            s
        }
    }
}

/// `x` inserted into `s` before the first joint whose child name sorts after `x`'s.
pub open spec fn sorted_insert(js: Seq<JointDecl>, s: Seq<int>, x: int) -> Seq<int>
    decreases s.len(),
{
    if s.len() == 0 {
        seq![x]
    } else if seq_lt(js[x].child@, js[s[0]].child@) {
        seq![x] + s
    } else {
        seq![s[0]] + sorted_insert(js, s.drop_first(), x)
    }
}

/// The stable sort of `s` by child link name.
pub open spec fn sort_by_child(js: Seq<JointDecl>, s: Seq<int>) -> Seq<int>
    decreases s.len(),
{
    if s.len() == 0 {
        s
    } else {
        sorted_insert(js, sort_by_child(js, s.drop_last()), s.last())
    }
}

/// The joints hanging off link `p`, in the order the engine walks them.
pub open spec fn sorted_kids(js: Seq<JointDecl>, p: Seq<char>) -> Seq<int> {
    sort_by_child(js, kids(js, p, js.len() as int))
}

pub open spec fn child_missing_msg(j: JointDecl) -> Seq<char> {
    "simu.body_tree: joint "@ + j.name@ + ": child link "@ + j.child@ + " missing"@
}

/// The bodies below a link, depth first: for each joint of `ks` in turn, the body it moves and then
/// that body's own subtree. Body indices start at `base`, and `pidx` is the index of the body the
/// joints hang off. A subtree deeper than `fuel` bodies is an error; the walk from the root gets
/// as much fuel as there are joints, and a path from the root without a repeated link uses each
/// joint at most once, so only a cycle of joints below the root runs it out.
pub open spec fn forest(
    js: Seq<JointDecl>,
    ls: Seq<LinkDecl>,
    ks: Seq<int>,
    pidx: int,
    base: int,
    fuel: nat,
) -> Result<Seq<NodeView>, Seq<char>>
    decreases fuel, ks.len(),
{
    if ks.len() == 0 {
        Ok(Seq::empty())
    } else {
        match forest(js, ls, ks.drop_last(), pidx, base, fuel) {
            Err(e) => Err(e),
            Ok(pre) => {
                let k = ks.last();
                let idx = base + pre.len();
                if !has_link(ls, js[k].child@) {
                    Err(child_missing_msg(js[k]))
                } else if idx >= i32::MAX {
                    Err("simu.body_tree: too many bodies"@)
                } else if fuel == 0 {
                    Err("simu.body_tree: the joints below the root link form a cycle"@)
                } else {
                    let node = (js[k].child@, pidx, js[k].name@, idx - 1, k);
                    match forest(
                        js,
                        ls,
                        sorted_kids(js, js[k].child@),
                        idx,
                        idx + 1,
                        (fuel - 1) as nat,
                    ) {
                        Err(e) => Err(e),
                        Ok(sub) => Ok(pre.push(node) + sub),
                    }
                }
            },
        }
    }
}

/// The first joint of a type the tree does not take, if any.
pub open spec fn first_unsupported(js: Seq<JointDecl>) -> Option<int> {
    if exists|k: int| 0 <= k < js.len() && is_unsupported(js[k]) {
        Some(
            choose|k: int|
                0 <= k < js.len() && is_unsupported(js[k]) && forall|j: int|
                    0 <= j < k ==> !is_unsupported(js[j]),
        )
    } else {
        None
    }
}

/// The bodies of the tree a URDF's joint and link records describe, in the engine's order: the
/// root first, then the depth-first walk from it.
pub open spec fn spec_body_tree(js: Seq<JointDecl>, ls: Seq<LinkDecl>) -> Result<
    Seq<NodeView>,
    Seq<char>,
> {
    match spec_root_link(js, ls) {
        Err(e) => Err(e),
        Ok(r) => if !has_link(ls, r) {
            Err("simu.body_tree: root link "@ + r + " missing"@)
        } else {
            match first_unsupported(js) {
                Some(k) => Err(
                    "simu.body_tree: joint "@ + js[k].name@ + " of type "@ + js[k].jtype@
                        + " unsupported"@,
                ),
                None => match forest(js, ls, sorted_kids(js, r), 0, 1, js.len() as nat) {
                    Err(e) => Err(e),
                    Ok(s) => Ok(seq![(r, -1int, Seq::<char>::empty(), -1int, -1int)] + s),
                },
            }
        },
    }
}

proof fn lemma_sorted_insert_at(js: Seq<JointDecl>, s: Seq<int>, x: int, q: int)
    requires
        0 <= q <= s.len(),
        forall|i: int| 0 <= i < q ==> !seq_lt(js[x].child@, #[trigger] js[s[i]].child@),
        q < s.len() ==> seq_lt(js[x].child@, js[s[q]].child@),
    ensures
        sorted_insert(js, s, x) == s.take(q) + seq![x] + s.skip(q),
    decreases s.len(),
{
    if s.len() == 0 {
        assert(s.take(q) + seq![x] + s.skip(q) =~= seq![x]);
    } else if q == 0 {
        assert(s.take(q) + seq![x] + s.skip(q) =~= seq![x] + s);
    } else {
        let t = s.drop_first();
        assert(!seq_lt(js[x].child@, js[s[0]].child@));
        assert forall|i: int| 0 <= i < q - 1 implies !seq_lt(
            js[x].child@,
            #[trigger] js[t[i]].child@,
        ) by {
            assert(t[i] == s[i + 1]);
        }
        if q - 1 < t.len() {
            assert(t[q - 1] == s[q]);
        }
        lemma_sorted_insert_at(js, t, x, q - 1);
        assert(seq![s[0]] + (t.take(q - 1) + seq![x] + t.skip(q - 1)) =~= s.take(q) + seq![x]
            + s.skip(q));
    }
}

proof fn lemma_sorted_insert_elems(js: Seq<JointDecl>, s: Seq<int>, x: int)
    ensures
        sorted_insert(js, s, x).len() == s.len() + 1,
        forall|i: int|
            0 <= i < sorted_insert(js, s, x).len() ==> (#[trigger] sorted_insert(js, s, x)[i] == x
                || s.contains(sorted_insert(js, s, x)[i])),
    decreases s.len(),
{
    if s.len() > 0 && !seq_lt(js[x].child@, js[s[0]].child@) {
        let t = s.drop_first();
        lemma_sorted_insert_elems(js, t, x);
        let r = sorted_insert(js, s, x);
        assert forall|i: int| 0 <= i < r.len() implies (#[trigger] r[i] == x || s.contains(r[i])) by {
            if i == 0 {
                assert(s.contains(s[0]));
            } else {
                let v = sorted_insert(js, t, x)[i - 1];
                assert(r[i] == v);
                if v != x {
                    let j = choose|j: int| 0 <= j < t.len() && t[j] == v;
                    assert(s[j + 1] == v);
                }
            }
        }
    } else if s.len() > 0 {
        let r = sorted_insert(js, s, x);
        assert forall|i: int| 0 <= i < r.len() implies (#[trigger] r[i] == x || s.contains(r[i])) by {
            if i > 0 {
                assert(r[i] == s[i - 1]);
            }
        }
    }
}

/// The elements of the sorted list are elements of the list.
proof fn lemma_sort_elems(js: Seq<JointDecl>, s: Seq<int>)
    ensures
        sort_by_child(js, s).len() == s.len(),
        forall|i: int|
            0 <= i < sort_by_child(js, s).len() ==> s.contains(#[trigger] sort_by_child(js, s)[i]),
    decreases s.len(),
{
    if s.len() > 0 {
        let p = s.drop_last();
        lemma_sort_elems(js, p);
        lemma_sorted_insert_elems(js, sort_by_child(js, p), s.last());
        let r = sort_by_child(js, s);
        assert forall|i: int| 0 <= i < r.len() implies s.contains(#[trigger] r[i]) by {
            if r[i] != s.last() {
                let sp = sort_by_child(js, p);
                assert(sp.contains(r[i]));
                let j = choose|j: int| 0 <= j < sp.len() && sp[j] == r[i];
                assert(p.contains(sp[j]));
                let m = choose|m: int| 0 <= m < p.len() && p[m] == sp[j];
                assert(s[m] == r[i]);
            } else {
                assert(s[s.len() - 1] == r[i]);
            }
        }
    }
}

proof fn lemma_kids_bounds(js: Seq<JointDecl>, p: Seq<char>, upto: int)
    requires
        upto <= js.len(),
    ensures
        forall|i: int| 0 <= i < kids(js, p, upto).len() ==> 0 <= #[trigger] kids(js, p, upto)[i] < upto,
    decreases upto,
{
    if upto > 0 {
        lemma_kids_bounds(js, p, upto - 1);
        let s = kids(js, p, upto - 1);
        let t = kids(js, p, upto);
        assert forall|i: int| 0 <= i < t.len() implies 0 <= #[trigger] t[i] < upto by {
            if i < s.len() {
                assert(t[i] == s[i]);
            }
        }
    }
}

/// Every joint the engine walks under a link is a joint of the model.
proof fn lemma_sorted_kids_bounds(js: Seq<JointDecl>, p: Seq<char>)
    ensures
        forall|i: int|
            0 <= i < sorted_kids(js, p).len() ==> 0 <= #[trigger] sorted_kids(js, p)[i] < js.len(),
{
    let k = kids(js, p, js.len() as int);
    lemma_kids_bounds(js, p, js.len() as int);
    lemma_sort_elems(js, k);
    assert forall|i: int| 0 <= i < sorted_kids(js, p).len() implies 0 <= #[trigger] sorted_kids(
        js,
        p,
    )[i] < js.len() by {
        assert(k.contains(sorted_kids(js, p)[i]));
    }
}

/// The joints of `s` come in child-name order (ties in any order).
pub open spec fn sorted_by_child(js: Seq<JointDecl>, s: Seq<int>) -> bool {
    forall|a: int, b: int|
        0 <= a < b < s.len() ==> !seq_lt(#[trigger] js[s[b]].child@, #[trigger] js[s[a]].child@)
}

proof fn lemma_sorted_insert_sorted(js: Seq<JointDecl>, s: Seq<int>, x: int)
    requires
        sorted_by_child(js, s),
    ensures
        sorted_by_child(js, sorted_insert(js, s, x)),
    decreases s.len(),
{
    let r = sorted_insert(js, s, x);
    if s.len() == 0 {
    } else if seq_lt(js[x].child@, js[s[0]].child@) {
        assert forall|a: int, b: int| 0 <= a < b < r.len() implies !seq_lt(
            #[trigger] js[r[b]].child@,
            #[trigger] js[r[a]].child@,
        ) by {
            if a == 0 {
                assert(r[b] == s[b - 1]);
                assert(r[a] == x);
                if b - 1 > 0 {
                    assert(!seq_lt(js[s[b - 1]].child@, js[s[0]].child@));
                }
                if seq_lt(js[s[b - 1]].child@, js[x].child@) {
                    lemma_seq_lt_trans(js[s[b - 1]].child@, js[x].child@, js[s[0]].child@);
                    if b - 1 == 0 {
                        lemma_seq_lt_irrefl(js[s[0]].child@);
                    }
                }
            } else {
                assert(r[a] == s[a - 1]);
                assert(r[b] == s[b - 1]);
            }
        }
    } else {
        let t = s.drop_first();
        assert(sorted_by_child(js, t)) by {
            assert forall|a: int, b: int| 0 <= a < b < t.len() implies !seq_lt(
                #[trigger] js[t[b]].child@,
                #[trigger] js[t[a]].child@,
            ) by {
                assert(t[a] == s[a + 1]);
                assert(t[b] == s[b + 1]);
            }
        }
        lemma_sorted_insert_sorted(js, t, x);
        lemma_sorted_insert_elems(js, t, x);
        let it = sorted_insert(js, t, x);
        assert forall|a: int, b: int| 0 <= a < b < r.len() implies !seq_lt(
            #[trigger] js[r[b]].child@,
            #[trigger] js[r[a]].child@,
        ) by {
            if a == 0 {
                assert(r[a] == s[0]);
                assert(r[b] == it[b - 1]);
                if it[b - 1] != x {
                    assert(t.contains(it[b - 1]));
                    let j = choose|j: int| 0 <= j < t.len() && t[j] == it[b - 1];
                    assert(s[j + 1] == t[j]);
                }
            } else {
                assert(r[a] == it[a - 1]);
                assert(r[b] == it[b - 1]);
            }
        }
    }
}

proof fn lemma_sort_sorted(js: Seq<JointDecl>, s: Seq<int>)
    ensures
        sorted_by_child(js, sort_by_child(js, s)),
    decreases s.len(),
{
    if s.len() > 0 {
        lemma_sort_sorted(js, s.drop_last());
        lemma_sorted_insert_sorted(js, sort_by_child(js, s.drop_last()), s.last());
    }
}

/// Siblings in a walk: two bodies of the walk with the same parent come in child-name order, and
/// every body hung directly off the walk's parent is the child of one of the walked joints.
proof fn lemma_forest_siblings(
    js: Seq<JointDecl>,
    ls: Seq<LinkDecl>,
    ks: Seq<int>,
    pidx: int,
    base: int,
    fuel: nat,
)
    requires
        0 <= pidx < base <= i32::MAX,
        sorted_by_child(js, ks),
    ensures
        forest(js, ls, ks, pidx, base, fuel) matches Ok(s) ==> {
            &&& forall|a: int, b: int|
                0 <= a < b < s.len() && (#[trigger] s[a]).1 == (#[trigger] s[b]).1 ==> !seq_lt(
                    s[b].0,
                    s[a].0,
                )
            &&& forall|a: int|
                0 <= a < s.len() && (#[trigger] s[a]).1 == pidx ==> exists|j: int|
                    0 <= j < ks.len() && s[a].0 == js[ks[j]].child@
        },
    decreases fuel, ks.len(),
{
    if ks.len() > 0 {
        let kp = ks.drop_last();
        assert(sorted_by_child(js, kp)) by {
            assert forall|a: int, b: int| 0 <= a < b < kp.len() implies !seq_lt(
                #[trigger] js[kp[b]].child@,
                #[trigger] js[kp[a]].child@,
            ) by {
                assert(kp[a] == ks[a]);
                assert(kp[b] == ks[b]);
            }
        }
        lemma_forest_siblings(js, ls, kp, pidx, base, fuel);
        lemma_forest_shape(js, ls, kp, pidx, base, fuel);
        match forest(js, ls, kp, pidx, base, fuel) {
            Err(_) => {},
            Ok(pre) => {
                let k = ks.last();
                let idx = base + pre.len();
                if has_link(ls, js[k].child@) && idx < i32::MAX && fuel > 0 {
                    let kk = sorted_kids(js, js[k].child@);
                    lemma_sort_sorted(js, kids(js, js[k].child@, js.len() as int));
                    lemma_forest_siblings(js, ls, kk, idx, idx + 1, (fuel - 1) as nat);
                    lemma_forest_shape(js, ls, kk, idx, idx + 1, (fuel - 1) as nat);
                    match forest(js, ls, kk, idx, idx + 1, (fuel - 1) as nat) {
                        Err(_) => {},
                        Ok(sub) => {
                            let node = (js[k].child@, pidx, js[k].name@, idx - 1, k);
                            let s = pre.push(node) + sub;
                            let p = pre.len() as int;
                            assert forall|a: int, b: int|
                                0 <= a < b < s.len() && (#[trigger] s[a]).1 == (#[trigger] s[b]).1 implies !seq_lt(
                                s[b].0,
                                s[a].0,
                            ) by {
                                if b < p {
                                    assert(s[a] == pre[a]);
                                    assert(s[b] == pre[b]);
                                } else if b == p {
                                    assert(s[a] == pre[a]);
                                    assert(s[b] == node);
                                    assert(pre[a].1 == pidx);
                                    let j = choose|j: int| 0 <= j < kp.len() && pre[a].0 == js[kp[j]].child@;
                                    assert(kp[j] == ks[j]);
                                    assert(!seq_lt(js[ks[ks.len() - 1]].child@, js[ks[j]].child@));
                                } else if a > p {
                                    assert(s[a] == sub[a - p - 1]);
                                    assert(s[b] == sub[b - p - 1]);
                                } else if a == p {
                                    assert(s[a] == node);
                                    assert(s[b] == sub[b - p - 1]);
                                    assert(sub[b - p - 1].1 >= idx);
                                } else {
                                    assert(s[a] == pre[a]);
                                    assert(s[b] == sub[b - p - 1]);
                                    assert(pre[a].1 < base + a);
                                    assert(sub[b - p - 1].1 >= idx);
                                }
                            }
                            assert forall|a: int| 0 <= a < s.len() && (#[trigger] s[a]).1 == pidx implies exists|j: int|
                                0 <= j < ks.len() && s[a].0 == js[ks[j]].child@ by {
                                if a < p {
                                    assert(s[a] == pre[a]);
                                    let j = choose|j: int| 0 <= j < kp.len() && pre[a].0 == js[kp[j]].child@;
                                    assert(kp[j] == ks[j]);
                                } else if a == p {
                                    assert(s[a] == node);
                                    assert(s[a].0 == js[ks[ks.len() - 1]].child@);
                                } else {
                                    assert(s[a] == sub[a - p - 1]);
                                    assert(sub[a - p - 1].1 >= idx);
                                }
                            }
                        },
                    }
                }
            },
        }
    }
}

/// Body `d` is body `a` or lies below it, following the parents up from `d`.
pub open spec fn descends(s: Seq<NodeView>, d: int, a: int) -> bool
    decreases d,
{
    if d == a {
        true
    } else if 0 <= d < s.len() && 0 <= s[d].1 < d {
        descends(s, s[d].1, a)
    } else {
        false
    }
}

proof fn lemma_descends_trans(s: Seq<NodeView>, d: int, m: int, a: int)
    requires
        descends(s, d, m),
        descends(s, m, a),
    ensures
        descends(s, d, a),
    decreases d,
{
    if d != m {
        lemma_descends_trans(s, s[d].1, m, a);
    }
}

/// The bodies of a walk, placed at `base` in `all`, all lie below `pidx`, and each hangs from the
/// body just before it or from one of that body's ancestors.
proof fn lemma_forest_depth_first(
    js: Seq<JointDecl>,
    ls: Seq<LinkDecl>,
    ks: Seq<int>,
    pidx: int,
    base: int,
    fuel: nat,
    all: Seq<NodeView>,
)
    requires
        0 <= pidx < base <= i32::MAX,
        descends(all, base - 1, pidx),
        forest(js, ls, ks, pidx, base, fuel) matches Ok(f) ==> base + f.len() <= all.len() && forall|m: int|
            0 <= m < f.len() ==> all[base + m] == f[m],
    ensures
        forest(js, ls, ks, pidx, base, fuel) matches Ok(f) ==> forall|m: int|
            0 <= m < f.len() ==> descends(all, base + m, pidx) && descends(
                all,
                base + m - 1,
                #[trigger] all[base + m].1,
            ),
    decreases fuel, ks.len(),
{
    if ks.len() > 0 {
        lemma_forest_shape(js, ls, ks, pidx, base, fuel);
        match forest(js, ls, ks.drop_last(), pidx, base, fuel) {
            Err(_) => {},
            Ok(pre) => {
                let k = ks.last();
                let idx = base + pre.len();
                if has_link(ls, js[k].child@) && idx < i32::MAX && fuel > 0 {
                    let kk = sorted_kids(js, js[k].child@);
                    match forest(js, ls, kk, idx, idx + 1, (fuel - 1) as nat) {
                        Err(_) => {},
                        Ok(sub) => {
                            let node = (js[k].child@, pidx, js[k].name@, idx - 1, k);
                            let f = pre.push(node) + sub;
                            assert(forest(js, ls, ks, pidx, base, fuel) == Ok::<Seq<NodeView>, Seq<char>>(f));
                            assert forall|m: int| 0 <= m < pre.len() implies all[base + m] == pre[m] by {
                                assert(f[m] == pre[m]);
                            }
                            lemma_forest_depth_first(js, ls, ks.drop_last(), pidx, base, fuel, all);
                            assert(all[idx] == node) by {
                                assert(f[pre.len() as int] == node);
                            }
                            // the new body hangs from pidx, an ancestor of the body just before it
                            assert(descends(all, idx - 1, pidx)) by {
                                if pre.len() > 0 {
                                    assert(descends(all, base + (pre.len() - 1), pidx));
                                }
                            }
                            assert(descends(all, idx, pidx)) by {
                                assert(all[idx].1 == pidx);
                                assert(idx < all.len());
                                assert(descends(all, pidx, pidx));
                            }
                            assert forall|m: int| 0 <= m < sub.len() implies all[idx + 1 + m] == sub[m] by {
                                assert(f[pre.len() + 1 + m] == sub[m]);
                            }
                            assert(descends(all, idx, idx));
                            lemma_forest_depth_first(js, ls, kk, idx, idx + 1, (fuel - 1) as nat, all);
                            assert forall|m: int| 0 <= m < f.len() implies descends(all, base + m, pidx) && descends(
                                all,
                                base + m - 1,
                                #[trigger] all[base + m].1,
                            ) by {
                                if m < pre.len() {
                                } else if m == pre.len() {
                                } else {
                                    let m2 = m - pre.len() - 1;
                                    assert(base + m == idx + 1 + m2);
                                    assert(descends(all, idx + 1 + m2, idx));
                                    lemma_descends_trans(all, base + m, idx, pidx);
                                }
                            }
                        },
                    }
                }
            },
        }
    }
}

proof fn lemma_depth_first_blocks(s: Seq<NodeView>, a: int, j: int, k: int)
    requires
        forall|i: int| 1 <= i < s.len() ==> 0 <= (#[trigger] s[i]).1 < i && descends(s, i - 1, s[i].1),
        0 <= a < j < k < s.len(),
        descends(s, k, a),
    ensures
        descends(s, j, a),
    decreases k,
{
    let p = s[k].1;
    assert(descends(s, p, a));
    assert(descends(s, k - 1, p));
    lemma_descends_trans(s, k - 1, p, a);
    if j < k - 1 {
        lemma_depth_first_blocks(s, a, j, k - 1);
    }
}

/// Depth first: in the tree a URDF's records describe, each body after the root hangs from the body
/// listed just before it or from one of that body's ancestors; so the bodies below any body follow
/// it as one unbroken block.
pub proof fn law_bodies_depth_first(js: Seq<JointDecl>, ls: Seq<LinkDecl>)
    ensures
        spec_body_tree(js, ls) matches Ok(s) ==> {
            &&& forall|k: int| 1 <= k < s.len() ==> descends(s, k - 1, (#[trigger] s[k]).1)
            &&& forall|a: int, j: int, k: int|
                0 <= a < j < k < s.len() && #[trigger] descends(s, k, a) ==> #[trigger] descends(s, j, a)
        },
{
    match spec_root_link(js, ls) {
        Err(_) => {},
        Ok(r) => {
            if has_link(ls, r) && first_unsupported(js) is None {
                let kk = sorted_kids(js, r);
                lemma_forest_shape(js, ls, kk, 0, 1, js.len() as nat);
                match forest(js, ls, kk, 0, 1, js.len() as nat) {
                    Err(_) => {},
                    Ok(f) => {
                        let root: NodeView = (r, -1int, Seq::<char>::empty(), -1int, -1int);
                        let s = seq![root] + f;
                        assert(spec_body_tree(js, ls) == Ok::<Seq<NodeView>, Seq<char>>(s));
                        assert forall|m: int| 0 <= m < f.len() implies s[1 + m] == f[m] by {}
                        assert(descends(s, 0, 0));
                        lemma_forest_depth_first(js, ls, kk, 0, 1, js.len() as nat, s);
                        assert forall|i: int| 1 <= i < s.len() implies 0 <= (#[trigger] s[i]).1 < i && descends(
                            s,
                            i - 1,
                            s[i].1,
                        ) by {
                            assert(s[i] == f[i - 1]);
                            assert(s[1 + (i - 1)] == s[i]);
                        }
                        assert forall|a: int, j: int, k: int|
                            0 <= a < j < k < s.len() && #[trigger] descends(s, k, a) implies #[trigger] descends(
                            s,
                            j,
                            a,
                        ) by {
                            lemma_depth_first_blocks(s, a, j, k);
                        }
                    },
                }
            }
        },
    }
}

/// Every joint the engine walks under link `p` is a joint of the model that hangs from `p` and is
/// not the floating joint.
proof fn lemma_sorted_kids_hang(js: Seq<JointDecl>, p: Seq<char>)
    ensures
        forall|i: int|
            0 <= i < sorted_kids(js, p).len() ==> 0 <= #[trigger] sorted_kids(js, p)[i] < js.len()
                && !is_floating(js[sorted_kids(js, p)[i]]) && js[sorted_kids(js, p)[i]].parent@ == p,
{
    let k = kids(js, p, js.len() as int);
    lemma_kids_hang(js, p, js.len() as int);
    lemma_sort_elems(js, k);
    assert forall|i: int| 0 <= i < sorted_kids(js, p).len() implies 0 <= #[trigger] sorted_kids(js, p)[i]
        < js.len() && !is_floating(js[sorted_kids(js, p)[i]]) && js[sorted_kids(js, p)[i]].parent@
        == p by {
        assert(k.contains(sorted_kids(js, p)[i]));
    }
}

proof fn lemma_kids_hang(js: Seq<JointDecl>, p: Seq<char>, upto: int)
    requires
        upto <= js.len(),
    ensures
        forall|i: int|
            0 <= i < kids(js, p, upto).len() ==> 0 <= #[trigger] kids(js, p, upto)[i] < upto
                && !is_floating(js[kids(js, p, upto)[i]]) && js[kids(js, p, upto)[i]].parent@ == p,
    decreases upto,
{
    if upto > 0 {
        lemma_kids_hang(js, p, upto - 1);
        let s = kids(js, p, upto - 1);
        let t = kids(js, p, upto);
        assert forall|i: int| 0 <= i < t.len() implies 0 <= #[trigger] t[i] < upto && !is_floating(js[t[i]])
            && js[t[i]].parent@ == p by {
            if i < s.len() {
                assert(t[i] == s[i]);
            }
        }
    }
}

/// A downward walk of joints from link `p`: each a non-floating joint of the model, the first
/// hanging from `p`, each next one from the previous one's child link.
pub open spec fn downward_walk(js: Seq<JointDecl>, p: Seq<char>, c: Seq<int>) -> bool {
    &&& c.len() >= 1
    &&& forall|i: int| 0 <= i < c.len() ==> 0 <= #[trigger] c[i] < js.len() && !is_floating(js[c[i]])
    &&& js[c[0]].parent@ == p
    &&& forall|i: int| 1 <= i < c.len() ==> js[#[trigger] c[i]].parent@ == js[c[i - 1]].child@
}

pub open spec fn cycle_msg() -> Seq<char> {
    "simu.body_tree: the joints below the root link form a cycle"@
}

/// The walk runs out of fuel only along a downward walk one joint longer than the fuel.
proof fn lemma_forest_cycle_walk(
    js: Seq<JointDecl>,
    ls: Seq<LinkDecl>,
    ks: Seq<int>,
    pidx: int,
    base: int,
    fuel: nat,
    p: Seq<char>,
)
    requires
        forall|i: int|
            0 <= i < ks.len() ==> 0 <= #[trigger] ks[i] < js.len() && !is_floating(js[ks[i]])
                && js[ks[i]].parent@ == p,
    ensures
        forest(js, ls, ks, pidx, base, fuel) == Err::<Seq<NodeView>, Seq<char>>(cycle_msg()) ==> exists|
            c: Seq<int>,
        | downward_walk(js, p, c) && c.len() == fuel + 1,
    decreases fuel, ks.len(),
{
    reveal_strlit("simu.body_tree: the joints below the root link form a cycle");
    reveal_strlit("simu.body_tree: joint ");
    reveal_strlit("simu.body_tree: too many bodies");
    if ks.len() > 0 {
        lemma_forest_cycle_walk(js, ls, ks.drop_last(), pidx, base, fuel, p);
        match forest(js, ls, ks.drop_last(), pidx, base, fuel) {
            Err(_) => {},
            Ok(pre) => {
                let k = ks.last();
                assert(0 <= k < js.len() && !is_floating(js[k]) && js[k].parent@ == p);
                let idx = base + pre.len();
                if !has_link(ls, js[k].child@) {
                    assert(child_missing_msg(js[k])[16] != cycle_msg()[16]);
                } else if idx >= i32::MAX {
                    assert("simu.body_tree: too many bodies"@[17] != cycle_msg()[17]);
                } else if fuel == 0 {
                    let c = seq![k];
                    assert(downward_walk(js, p, c));
                } else {
                    let q = js[k].child@;
                    let kk = sorted_kids(js, q);
                    lemma_sorted_kids_hang(js, q);
                    lemma_forest_cycle_walk(js, ls, kk, idx, idx + 1, (fuel - 1) as nat, q);
                    match forest(js, ls, kk, idx, idx + 1, (fuel - 1) as nat) {
                        Err(e) => {
                            if e == cycle_msg() {
                                let c2 = choose|c2: Seq<int>| downward_walk(js, q, c2) && c2.len() == fuel;
                                let c = seq![k] + c2;
                                assert forall|i: int| 1 <= i < c.len() implies js[#[trigger] c[i]].parent@
                                    == js[c[i - 1]].child@ by {
                                    assert(c[i] == c2[i - 1]);
                                    if i > 1 {
                                        assert(c[i - 1] == c2[i - 2]);
                                    }
                                }
                                assert forall|i: int| 0 <= i < c.len() implies 0 <= #[trigger] c[i] < js.len()
                                    && !is_floating(js[c[i]]) by {
                                    if i > 0 {
                                        assert(c[i] == c2[i - 1]);
                                    }
                                }
                                assert(downward_walk(js, p, c));
                            }
                        },
                        Ok(_) => {},
                    }
                }
            },
        }
    }
}

/// Only a cycle stops the walk: when the tree cannot be read for a cycle, a downward walk of joints
/// from the root link meets one joint twice, so the joints below the root link do form a cycle;
/// an acyclic model never gets that error.
pub proof fn law_cycle_error_only_on_cycles(js: Seq<JointDecl>, ls: Seq<LinkDecl>)
    ensures
        spec_body_tree(js, ls) == Err::<Seq<NodeView>, Seq<char>>(cycle_msg()) ==> (spec_root_link(
            js,
            ls,
        ) matches Ok(r) && exists|c: Seq<int>, i: int, j: int|
            downward_walk(js, r, c) && 0 <= i < j < c.len() && c[i] == c[j]),
{
    reveal_strlit("simu.body_tree: the joints below the root link form a cycle");
    reveal_strlit("simu.body_tree: multiple floating joints");
    reveal_strlit("simu.body_tree: multiple root links");
    reveal_strlit("simu.body_tree: no root link found");
    reveal_strlit("simu.body_tree: root link ");
    reveal_strlit("simu.body_tree: joint ");
    if spec_body_tree(js, ls) == Err::<Seq<NodeView>, Seq<char>>(cycle_msg()) {
        match spec_root_link(js, ls) {
            Err(e) => {
                assert(e[16] != cycle_msg()[16]);
            },
            Ok(r) => {
                if !has_link(ls, r) {
                    assert(("simu.body_tree: root link "@ + r + " missing"@)[16] != cycle_msg()[16]);
                } else {
                    match first_unsupported(js) {
                        Some(k) => {
                            let m = "simu.body_tree: joint "@ + js[k].name@ + " of type "@ + js[k].jtype@
                                + " unsupported"@;
                            assert(m[16] != cycle_msg()[16]);
                        },
                        None => {
                            let n = js.len() as nat;
                            lemma_sorted_kids_hang(js, r);
                            lemma_forest_cycle_walk(js, ls, sorted_kids(js, r), 0, 1, n, r);
                            let c = choose|c: Seq<int>| downward_walk(js, r, c) && c.len() == n + 1;
                            lemma_pigeonhole(c, n as int);
                            let (i, j) = choose|i: int, j: int| 0 <= i < j < c.len() && c[i] == c[j];
                            assert(downward_walk(js, r, c) && 0 <= i < j < c.len() && c[i] == c[j]);
                        },
                    }
                }
            },
        }
    }
}

/// The engine's order: in the tree a URDF's records describe, two bodies with the same parent come
/// in the order of their names (the children sorted alphanumerically by link name).
pub proof fn law_siblings_in_name_order(js: Seq<JointDecl>, ls: Seq<LinkDecl>)
    ensures
        spec_body_tree(js, ls) matches Ok(s) ==> forall|a: int, b: int|
            0 <= a < b < s.len() && (#[trigger] s[a]).1 == (#[trigger] s[b]).1 ==> !seq_lt(s[b].0, s[a].0),
{
    match spec_root_link(js, ls) {
        Err(_) => {},
        Ok(r) => {
            if has_link(ls, r) && first_unsupported(js) is None {
                let kk = sorted_kids(js, r);
                lemma_sort_sorted(js, kids(js, r, js.len() as int));
                lemma_forest_siblings(js, ls, kk, 0, 1, js.len() as nat);
                lemma_forest_shape(js, ls, kk, 0, 1, js.len() as nat);
                match forest(js, ls, kk, 0, 1, js.len() as nat) {
                    Err(_) => {},
                    Ok(f) => {
                        let root: NodeView = (r, -1int, Seq::<char>::empty(), -1int, -1int);
                        let s = seq![root] + f;
                        assert forall|a: int, b: int|
                            0 <= a < b < s.len() && (#[trigger] s[a]).1 == (#[trigger] s[b]).1 implies !seq_lt(
                            s[b].0,
                            s[a].0,
                        ) by {
                            assert(s[b] == f[b - 1]);
                            if a == 0 {
                                assert(f[b - 1].1 >= 0);
                            } else {
                                assert(s[a] == f[a - 1]);
                            }
                        }
                    },
                }
            }
        },
    }
}

/// The bodies of a walk come in index order, each after its parent, each with the q slot one
/// below its index, and all of them below i32::MAX.
proof fn lemma_forest_shape(
    js: Seq<JointDecl>,
    ls: Seq<LinkDecl>,
    ks: Seq<int>,
    pidx: int,
    base: int,
    fuel: nat,
)
    requires
        0 <= pidx < base <= i32::MAX,
    ensures
        forest(js, ls, ks, pidx, base, fuel) matches Ok(s) ==> {
            &&& base + s.len() <= i32::MAX
            &&& forall|m: int|
                0 <= m < s.len() ==> pidx <= (#[trigger] s[m]).1 < base + m && s[m].3 == base + m
                    - 1
        },
    decreases fuel, ks.len(),
{
    if ks.len() > 0 {
        lemma_forest_shape(js, ls, ks.drop_last(), pidx, base, fuel);
        match forest(js, ls, ks.drop_last(), pidx, base, fuel) {
            Err(_) => {},
            Ok(pre) => {
                let k = ks.last();
                let idx = base + pre.len();
                if has_link(ls, js[k].child@) && idx < i32::MAX && fuel > 0 {
                    let kk = sorted_kids(js, js[k].child@);
                    lemma_forest_shape(js, ls, kk, idx, idx + 1, (fuel - 1) as nat);
                    match forest(js, ls, kk, idx, idx + 1, (fuel - 1) as nat) {
                        Err(_) => {},
                        Ok(sub) => {
                            let node = (js[k].child@, pidx, js[k].name@, idx - 1, k);
                            let s = pre.push(node) + sub;
                            assert forall|m: int| 0 <= m < s.len() implies pidx <= (
                            #[trigger] s[m]).1 < base + m && s[m].3 == base + m - 1 by {
                                if m < pre.len() {
                                    assert(s[m] == pre[m]);
                                } else if m == pre.len() {
                                    assert(s[m] == node);
                                } else {
                                    assert(s[m] == sub[m - pre.len() - 1]);
                                }
                            }
                        },
                    }
                }
            },
        }
    }
}

/// Each body of a walk records the joint that moves it: the joint's child link is the body and the
/// joint's name is the body's joint.
proof fn lemma_forest_decls(
    js: Seq<JointDecl>,
    ls: Seq<LinkDecl>,
    ks: Seq<int>,
    pidx: int,
    base: int,
    fuel: nat,
)
    requires
        forall|i: int| 0 <= i < ks.len() ==> 0 <= #[trigger] ks[i] < js.len(),
    ensures
        forest(js, ls, ks, pidx, base, fuel) matches Ok(s) ==> forall|m: int|
            0 <= m < s.len() ==> 0 <= (#[trigger] s[m]).4 < js.len() && js[s[m].4].child@ == s[m].0
                && js[s[m].4].name@ == s[m].2,
    decreases fuel, ks.len(),
{
    if ks.len() > 0 {
        lemma_forest_decls(js, ls, ks.drop_last(), pidx, base, fuel);
        match forest(js, ls, ks.drop_last(), pidx, base, fuel) {
            Err(_) => {},
            Ok(pre) => {
                let k = ks.last();
                let idx = base + pre.len();
                if has_link(ls, js[k].child@) && idx < i32::MAX && fuel > 0 {
                    let kk = sorted_kids(js, js[k].child@);
                    lemma_sorted_kids_bounds(js, js[k].child@);
                    lemma_forest_decls(js, ls, kk, idx, idx + 1, (fuel - 1) as nat);
                    match forest(js, ls, kk, idx, idx + 1, (fuel - 1) as nat) {
                        Err(_) => {},
                        Ok(sub) => {
                            let node = (js[k].child@, pidx, js[k].name@, idx - 1, k);
                            let s = pre.push(node) + sub;
                            assert forall|m: int| 0 <= m < s.len() implies 0 <= (#[trigger] s[m]).4
                                < js.len() && js[s[m].4].child@ == s[m].0 && js[s[m].4].name@
                                == s[m].2 by {
                                if m < pre.len() {
                                    assert(s[m] == pre[m]);
                                } else if m == pre.len() {
                                    assert(s[m] == node);
                                } else {
                                    assert(s[m] == sub[m - pre.len() - 1]);
                                }
                            }
                        },
                    }
                }
            },
        }
    }
}

/// An error in the walk of a prefix of the joints is the error of the whole walk.
proof fn lemma_forest_err_prefix(
    js: Seq<JointDecl>,
    ls: Seq<LinkDecl>,
    ks: Seq<int>,
    i: int,
    pidx: int,
    base: int,
    fuel: nat,
)
    requires
        0 <= i <= ks.len(),
        forest(js, ls, ks.take(i), pidx, base, fuel) is Err,
    ensures
        forest(js, ls, ks, pidx, base, fuel) == forest(js, ls, ks.take(i), pidx, base, fuel),
    decreases ks.len(),
{
    if i == ks.len() {
        assert(ks.take(i) =~= ks);
    } else {
        assert(ks.drop_last().take(i) =~= ks.take(i));
        lemma_forest_err_prefix(js, ls, ks.drop_last(), i, pidx, base, fuel);
    }
}

/// The joints hanging off link `p`, sorted by child link name (stable).
fn kids_sorted(js: &Vec<JointDecl>, p: &str) -> (r: Vec<usize>)
    ensures
        ints(r@) == sorted_kids(js@, p@),
{
    let mut out: Vec<usize> = Vec::new();
    let mut k: usize = 0;
    let n = js.len();
    proof {
        reveal_strlit("floating");
    }
    while k < n
        invariant
            n == js@.len(),
            k <= n,
            ints(out@) == sort_by_child(js@, kids(js@, p@, k as int)),
            forall|i: int| 0 <= i < out@.len() ==> (#[trigger] out@[i] as int) < k,
        decreases n - k,
    {
        let ghost pre = kids(js@, p@, k as int);
        let j = &js[k];
        if !str_eq(j.jtype.as_str(), "floating") && str_eq(j.parent.as_str(), p) {
            let mut q: usize = 0;
            while q < out.len() && !str_lt(js[k].child.as_str(), js[out[q]].child.as_str())
                invariant
                    n == js@.len(),
                    k < n,
                    q <= out@.len(),
                    forall|i: int| 0 <= i < out@.len() ==> (#[trigger] out@[i] as int) < k,
                    forall|i: int|
                        0 <= i < q ==> !seq_lt(
                            js@[k as int].child@,
                            #[trigger] js@[ints(out@)[i]].child@,
                        ),
                decreases out@.len() - q,
            {
                assert(ints(out@)[q as int] == out@[q as int] as int);
                q = q + 1;
            }
            let ghost s = ints(out@);
            proof {
                if q < out@.len() {
                    assert(s[q as int] == out@[q as int] as int);
                }
                lemma_sorted_insert_at(js@, s, k as int, q as int);
                assert(kids(js@, p@, k + 1) == pre.push(k as int));
                assert(pre.push(k as int).drop_last() =~= pre);
            }
            out.insert(q, k);
            assert(ints(out@) =~= s.take(q as int) + seq![k as int] + s.skip(q as int));
            assert forall|i: int| 0 <= i < out@.len() implies (#[trigger] out@[i] as int) < k + 1 by {
                if i < q {
                    assert(out@[i] as int == s[i]);
                } else if i > q {
                    assert(out@[i] as int == s[i - 1]);
                }
            }
        } else {
            assert(kids(js@, p@, k + 1) == pre);
        }
        k = k + 1;
    }
    out
}

fn link_exists(ls: &Vec<LinkDecl>, name: &str) -> (r: bool)
    ensures
        r == has_link(ls@, name@),
{
    let mut i: usize = 0;
    while i < ls.len()
        invariant
            i <= ls@.len(),
            forall|k: int| 0 <= k < i ==> ls@[k].name@ != name@,
        decreases ls@.len() - i,
    {
        if str_eq(ls[i].name.as_str(), name) {
            return true;
        }
        i = i + 1;
    }
    false
}

fn child_exists(js: &Vec<JointDecl>, name: &str) -> (r: bool)
    ensures
        r == is_child_link(js@, name@),
{
    let mut i: usize = 0;
    while i < js.len()
        invariant
            i <= js@.len(),
            forall|k: int| 0 <= k < i ==> js@[k].child@ != name@,
        decreases js@.len() - i,
    {
        if str_eq(js[i].child.as_str(), name) {
            return true;
        }
        i = i + 1;
    }
    false
}

/// The tree's frame state during the walk: the bodies so far and their joints.
pub open spec fn grown(
    old_nodes: Seq<NodeView>,
    old_q: Seq<Seq<char>>,
    s: Seq<NodeView>,
    nodes: Seq<NodeView>,
    q: Seq<Seq<char>>,
) -> bool {
    &&& nodes == old_nodes + s
    &&& q == old_q + joint_names_of(s)
}

/// Adds the bodies below link `link` (body `pidx`) to the tree, depth first.
fn grow(
    js: &Vec<JointDecl>,
    ls: &Vec<LinkDecl>,
    tree: &mut BodyTree,
    link: &str,
    pidx: usize,
    fuel: usize,
) -> (r: Result<(), String>)
    requires
        pidx < old(tree).nodes@.len(),
        pidx < i32::MAX,
    ensures
        final(tree).urdf == old(tree).urdf,
        final(tree).root == old(tree).root,
        match forest(js@, ls@, sorted_kids(js@, link@), pidx as int, old(tree).nodes@.len() as int, fuel as nat) {
            Ok(s) => r is Ok && grown(
                nodes_view(old(tree).nodes@),
                names_view(old(tree).q_names@),
                s,
                nodes_view(final(tree).nodes@),
                names_view(final(tree).q_names@),
            ),
            Err(e) => r is Err && r->Err_0@ == e,
        },
    decreases fuel,
{
    let ghost js_v = js@;
    let ghost ls_v = ls@;
    let ghost base = tree.nodes@.len() as int;
    let ghost n0 = nodes_view(tree.nodes@);
    let ghost q0 = names_view(tree.q_names@);
    let ks = kids_sorted(js, link);
    let ghost ksv = sorted_kids(js@, link@);
    proof {
        lemma_sorted_kids_bounds(js@, link@);
    }
    let mut t: usize = 0;
    assert(ksv.take(0) =~= Seq::<int>::empty());
    while t < ks.len()
        invariant
            js_v == js@,
            ls_v == ls@,
            ints(ks@) == ksv,
            ksv == sorted_kids(js@, link@),
            forall|i: int| 0 <= i < ksv.len() ==> 0 <= #[trigger] ksv[i] < js@.len(),
            t <= ks@.len(),
            pidx < i32::MAX,
            pidx < base,
            tree.urdf == old(tree).urdf,
            tree.root == old(tree).root,
            base == old(tree).nodes@.len(),
            n0 == nodes_view(old(tree).nodes@),
            q0 == names_view(old(tree).q_names@),
            forest(js@, ls@, ksv.take(t as int), pidx as int, base, fuel as nat) matches Ok(pre)
                && grown(n0, q0, pre, nodes_view(tree.nodes@), names_view(tree.q_names@)),
        decreases ks@.len() - t,
    {
        let ghost pre = forest(js@, ls@, ksv.take(t as int), pidx as int, base, fuel as nat)->Ok_0;
        let ghost kt = ksv.take(t + 1);
        assert(kt.drop_last() =~= ksv.take(t as int));
        assert(kt.last() == ksv[t as int]);
        assert(ksv[t as int] == ks@[t as int] as int);
        let k = ks[t];
        let j = &js[k];
        assert(tree.nodes@.len() == base + pre.len()) by {
            assert(nodes_view(tree.nodes@).len() == tree.nodes@.len());
        }
        if !link_exists(ls, j.child.as_str()) {
            let m = cat(
                cat(cat(cat("simu.body_tree: joint ", j.name.as_str()).as_str(), ": child link ").as_str(), j.child.as_str()).as_str(),
                " missing",
            );
            proof {
                lemma_forest_err_prefix(js@, ls@, ksv, t + 1, pidx as int, base, fuel as nat);
            }
            return Err(m);
        }
        let idx = tree.nodes.len();
        if idx >= 2147483647 {
            proof {
                lemma_forest_err_prefix(js@, ls@, ksv, t + 1, pidx as int, base, fuel as nat);
            }
            return Err(String::from_str("simu.body_tree: too many bodies"));
        }
        if fuel == 0 {
            proof {
                lemma_forest_err_prefix(js@, ls@, ksv, t + 1, pidx as int, base, fuel as nat);
            }
            return Err(String::from_str("simu.body_tree: the joints below the root link form a cycle"));
        }
        let ghost node: NodeView = (j.child@, pidx as int, j.name@, idx - 1, k as int);
        let ghost nb = nodes_view(tree.nodes@);
        let ghost qb = names_view(tree.q_names@);
        tree.nodes.push(TreeNode {
            name: j.child.clone(),
            parent: pidx as i32,
            joint: j.name.clone(),
            jo: (idx - 1) as i32,
            decl: Some(k),
        });
        tree.q_names.push(j.name.clone());
        assert(nodes_view(tree.nodes@) =~= nb.push(node));
        assert(names_view(tree.q_names@) =~= qb.push(node.2));
        let ghost nb2 = nodes_view(tree.nodes@);
        let ghost qb2 = names_view(tree.q_names@);
        let rr = grow(js, ls, tree, j.child.as_str(), idx, fuel - 1);
        match rr {
            Err(e) => {
                proof {
                    lemma_forest_err_prefix(js@, ls@, ksv, t + 1, pidx as int, base, fuel as nat);
                }
                return Err(e);
            },
            Ok(()) => {},
        }
        proof {
            let sub = forest(
                js@,
                ls@,
                sorted_kids(js@, js@[k as int].child@),
                idx as int,
                idx + 1,
                (fuel - 1) as nat,
            )->Ok_0;
            assert(forest(js@, ls@, kt, pidx as int, base, fuel as nat) == Ok::<Seq<NodeView>, Seq<char>>(pre.push(node) + sub));
            assert(joint_names_of(pre.push(node) + sub) =~= joint_names_of(pre).push(node.2) + joint_names_of(sub));
            assert(n0 + (pre.push(node) + sub) =~= nb2 + sub);
            assert(q0 + joint_names_of(pre.push(node) + sub) =~= qb2 + joint_names_of(sub));
        }
        t = t + 1;
    }
    assert(ksv.take(t as int) =~= ksv);
    Ok(())
}

/// Reads the tree a URDF's joint and link records describe: the floating root (an explicit
/// type="floating" joint's child, else the unique link that is no joint's child), then its bodies
/// depth first, each parent's joints sorted by child link name — the engine's canonical q order, so
/// state and torque vectors pass verbatim.
pub fn body_tree_from_decls(urdf: &str, js: &Vec<JointDecl>, ls: &Vec<LinkDecl>) -> (r: Result<
    BodyTree,
    String,
>)
    ensures
        match spec_body_tree(js@, ls@) {
            Ok(s) => r is Ok && nodes_view(r->Ok_0.nodes@) == s && names_view(r->Ok_0.q_names@)
                == joint_names_of(s.drop_first()) && r->Ok_0.root == 0 && r->Ok_0.urdf@ == urdf@,
            Err(e) => r is Err && r->Err_0@ == e,
        },
        r is Ok ==> r->Ok_0.well_formed(),
        r is Ok ==> forall|i: int|
            1 <= i < r->Ok_0.nodes@.len() ==> ((#[trigger] r->Ok_0.nodes@[i]).decl matches Some(k)
                && k < js@.len() && js@[k as int].child@ == r->Ok_0.nodes@[i].name@
                && js@[k as int].name@ == r->Ok_0.nodes@[i].joint@),
{
    proof {
        reveal_strlit("floating");
    }
    let n = js.len();
    let mut root = String::new();
    let mut k: usize = 0;
    while k < n
        invariant
            n == js@.len(),
            k <= n,
            !float_error(js@, k as int),
            root@ == last_floating_child(js@, k as int),
            root@.len() == 0 ==> forall|i: int|
                0 <= i < k && is_floating(#[trigger] js@[i]) ==> js@[i].child@.len() == 0,
            root@.len() > 0 ==> exists|i: int|
                0 <= i < k && is_floating(#[trigger] js@[i]) && js@[i].child@ == root@,
        decreases n - k,
    {
        if str_eq(js[k].jtype.as_str(), "floating") {
            if root.unicode_len() > 0 {
                assert(float_error(js@, n as int)) by {
                    let i = choose|i: int|
                        0 <= i < k && is_floating(#[trigger] js@[i]) && js@[i].child@ == root@;
                    assert(0 <= i < k < n && is_floating(js@[i]) && js@[i].child@.len() > 0
                        && is_floating(js@[k as int]));
                }
                return Err(String::from_str("simu.body_tree: multiple floating joints"));
            }
            root = js[k].child.clone();
            assert(!float_error(js@, k + 1)) by {
                if float_error(js@, k + 1) {
                    let (i, m) = choose|i: int, m: int|
                        0 <= i < m < k + 1 && is_floating(js@[i]) && js@[i].child@.len() > 0
                            && is_floating(js@[m]);
                    if m < k {
                        assert(float_error(js@, k as int));
                    }
                }
            }
        } else {
            assert(!float_error(js@, k + 1)) by {
                if float_error(js@, k + 1) {
                    let (i, m) = choose|i: int, m: int|
                        0 <= i < m < k + 1 && is_floating(js@[i]) && js@[i].child@.len() > 0
                            && is_floating(js@[m]);
                    assert(float_error(js@, k as int));
                }
            }
        }
        k = k + 1;
    }
    if root.unicode_len() == 0 {
        let m = ls.len();
        let mut k: usize = 0;
        while k < m
            invariant
                m == ls@.len(),
                k <= m,
                n == js@.len(),
                !float_error(js@, n as int),
                last_floating_child(js@, n as int).len() == 0,
                !root_link_error(js@, ls@, k as int),
                root@ == last_root_link(js@, ls@, k as int),
                root@.len() == 0 ==> forall|i: int|
                    0 <= i < k && !is_child_link(js@, #[trigger] ls@[i].name@) ==> ls@[i].name@.len()
                        == 0,
                root@.len() > 0 ==> exists|i: int|
                    0 <= i < k && !is_child_link(js@, #[trigger] ls@[i].name@) && ls@[i].name@
                        == root@,
            decreases m - k,
        {
            if !child_exists(js, ls[k].name.as_str()) {
                if root.unicode_len() > 0 {
                    assert(root_link_error(js@, ls@, m as int)) by {
                        let i = choose|i: int|
                            0 <= i < k && !is_child_link(js@, #[trigger] ls@[i].name@)
                                && ls@[i].name@ == root@;
                        assert(0 <= i < k < m && !is_child_link(js@, ls@[i].name@)
                            && ls@[i].name@.len() > 0 && !is_child_link(js@, ls@[k as int].name@));
                    }
                    return Err(String::from_str("simu.body_tree: multiple root links"));
                }
                root = ls[k].name.clone();
                assert(!root_link_error(js@, ls@, k + 1)) by {
                    if root_link_error(js@, ls@, k + 1) {
                        let (i, j) = choose|i: int, j: int|
                            0 <= i < j < k + 1 && !is_child_link(js@, ls@[i].name@)
                                && ls@[i].name@.len() > 0 && !is_child_link(js@, ls@[j].name@);
                        if j < k {
                            assert(root_link_error(js@, ls@, k as int));
                        }
                    }
                }
            } else {
                assert(!root_link_error(js@, ls@, k + 1)) by {
                    if root_link_error(js@, ls@, k + 1) {
                        let (i, j) = choose|i: int, j: int|
                            0 <= i < j < k + 1 && !is_child_link(js@, ls@[i].name@)
                                && ls@[i].name@.len() > 0 && !is_child_link(js@, ls@[j].name@);
                        assert(root_link_error(js@, ls@, k as int));
                    }
                }
            }
            k = k + 1;
        }
        if root.unicode_len() == 0 {
            return Err(String::from_str("simu.body_tree: no root link found"));
        }
    }
    assert(spec_root_link(js@, ls@) == Ok::<Seq<char>, Seq<char>>(root@));
    if !link_exists(ls, root.as_str()) {
        return Err(cat(cat("simu.body_tree: root link ", root.as_str()).as_str(), " missing"));
    }
    let mut k: usize = 0;
    while k < n
        invariant
            n == js@.len(),
            k <= n,
            forall|i: int| 0 <= i < k ==> !is_unsupported(#[trigger] js@[i]),
            spec_root_link(js@, ls@) == Ok::<Seq<char>, Seq<char>>(root@),
            has_link(ls@, root@),
        decreases n - k,
    {
        if !str_eq(js[k].jtype.as_str(), "floating") && !str_eq(js[k].jtype.as_str(), "revolute") {
            assert(is_unsupported(js@[k as int]));
            let ghost c = first_unsupported(js@)->0;
            assert(c == k) by {
                if c < k {
                } else if c > k {
                    assert(!is_unsupported(js@[k as int]));
                }
            }
            let msg = cat(
                cat(
                    cat(cat("simu.body_tree: joint ", js[k].name.as_str()).as_str(), " of type ").as_str(),
                    js[k].jtype.as_str(),
                ).as_str(),
                " unsupported",
            );
            return Err(msg);
        }
        k = k + 1;
    }
    assert(first_unsupported(js@) is None);
    let mut tree = BodyTree {
        urdf: String::from_str(urdf),
        nodes: Vec::new(),
        root: 0,
        q_names: Vec::new(),
    };
    tree.nodes.push(TreeNode { name: root.clone(), parent: -1, joint: String::new(), jo: -1, decl: None });
    let ghost n0 = nodes_view(tree.nodes@);
    assert(n0 =~= seq![(root@, -1int, Seq::<char>::empty(), -1int, -1int)]);
    assert(names_view(tree.q_names@) =~= Seq::<Seq<char>>::empty());
    match grow(js, ls, &mut tree, root.as_str(), 0, n) {
        Err(e) => Err(e),
        Ok(()) => {
            proof {
                let s = forest(js@, ls@, sorted_kids(js@, root@), 0, 1, n as nat)->Ok_0;
                assert((n0 + s).drop_first() =~= s);
                assert(Seq::<Seq<char>>::empty() + joint_names_of(s) =~= joint_names_of(s));
                lemma_forest_shape(js@, ls@, sorted_kids(js@, root@), 0, 1, n as nat);
                lemma_sorted_kids_bounds(js@, root@);
                lemma_forest_decls(js@, ls@, sorted_kids(js@, root@), 0, 1, n as nat);
                let ns = tree.nodes@;
                assert(nodes_view(ns) == n0 + s);
                assert(names_view(tree.q_names@) == joint_names_of(s));
                assert(ns.len() == s.len() + 1) by {
                    assert(nodes_view(ns).len() == ns.len());
                }
                assert forall|i: int| 1 <= i < ns.len() implies 0 <= (#[trigger] ns[i]).parent < i
                    && ns[i].jo == i - 1 && ns[i].joint@ == tree.q_names@[i - 1]@ by {
                    assert(nodes_view(ns)[i] == node_view(ns[i]));
                    assert(nodes_view(ns)[i] == s[i - 1]);
                    assert(names_view(tree.q_names@)[i - 1] == tree.q_names@[i - 1]@);
                    assert(joint_names_of(s)[i - 1] == s[i - 1].2);
                }
                assert forall|i: int| 1 <= i < ns.len() implies ((#[trigger] ns[i]).decl matches Some(k)
                    && k < js@.len() && js@[k as int].child@ == ns[i].name@ && js@[k as int].name@
                    == ns[i].joint@) by {
                    assert(nodes_view(ns)[i] == node_view(ns[i]));
                    assert(nodes_view(ns)[i] == s[i - 1]);
                }
                assert(nodes_view(ns)[0] == node_view(ns[0]));
                assert(tree.q_names@.len() == names_view(tree.q_names@).len());
            }
            Ok(tree)
        },
    }
}

} // verus!

//! MjcfModel, the converted product of one MJCF robot file: the URDF document carries what URDF can
//! express (chains, inertias, meshes, limits), the sidecar tables what URDF has no vocabulary for
//! (per-joint armature and effort, sites, keyframes). The tables are keyed by name; their numbers
//! (type `N`) and the sites' position and orientation (types `P` and `Q`) are carried through
//! unread, so the lookups here hold whatever the numeric layer stores in them.
use crate::text::str_eq;
use vstd::prelude::*;

verus! {

/// A named MJCF `<site>`: a task point welded to a body (the G1's foot soles, an imu frame);
/// sites are not URDF concepts, so they ride the sidecar.
#[derive(Clone, Debug)]
pub struct MjcfSite<P, Q> {
    pub name: String,
    pub body: String,
    pub pos: P,
    pub quat: Q,
}

/// The per-joint dynamics URDF cannot express: armature (reflected rotor inertia) and the
/// actuator's effort range, with the damping and friction the conversion settled on.
#[derive(Clone, Debug)]
pub struct MjcfJointExtra<N> {
    pub name: String,
    pub damping: N,
    pub friction: N,
    pub armature: N,
    pub effort_lo: N,
    pub effort_hi: N,
}

/// The converter's output bundle: the URDF text plus the sidecar (joint extras, sites, keyframes —
/// each keyframe a name and its MJCF qpos row).
#[derive(Clone, Debug)]
pub struct MjcfModel<N, P, Q> {
    pub urdf: String,
    pub joints: Vec<MjcfJointExtra<N>>,
    pub sites: Vec<MjcfSite<P, Q>>,
    pub kf_names: Vec<String>,
    pub kf_qpos: Vec<Vec<N>>,
}

/// The last joint row named `name`.
pub open spec fn last_joint_named<N>(joints: Seq<MjcfJointExtra<N>>, name: Seq<char>) -> Option<int>
    decreases joints.len(),
{
    if joints.len() == 0 {
        None
    } else if joints.last().name@ == name {
        Some(joints.len() - 1)
    } else {
        last_joint_named(joints.drop_last(), name)
    }
}

/// The first joint row named `name`.
pub open spec fn first_joint_named<N>(joints: Seq<MjcfJointExtra<N>>, name: Seq<char>) -> Option<int> {
    if exists|i: int| 0 <= i < joints.len() && joints[i].name@ == name {
        Some(
            choose|i: int|
                0 <= i < joints.len() && joints[i].name@ == name && forall|j: int|
                    0 <= j < i ==> joints[j].name@ != name,
        )
    } else {
        None
    }
}

/// The first site named `name`.
pub open spec fn first_site_named<P, Q>(sites: Seq<MjcfSite<P, Q>>, name: Seq<char>) -> Option<int> {
    if exists|i: int| 0 <= i < sites.len() && sites[i].name@ == name {
        Some(
            choose|i: int|
                0 <= i < sites.len() && sites[i].name@ == name && forall|j: int|
                    0 <= j < i ==> sites[j].name@ != name,
        )
    } else {
        None
    }
}

/// A keyframe's qpos mapped into the order `q_names`: slot `i` takes the value of the (last) joint
/// row named `q_names[i]`, which sits at 7 + its row index in the MJCF layout (the free joint's 7
/// first); a name with no row reads `zero`. Empty when the keyframe is missing, when the joint
/// table is missing (has no rows), or when the keyframe's row does not have one value per joint
/// after the free joint's seven.
pub open spec fn spec_keyframe_q<N, P, Q>(
    m: MjcfModel<N, P, Q>,
    name: Seq<char>,
    q_names: Seq<String>,
    zero: N,
) -> Seq<N> {
    match first_pos(names_of(m.kf_names@), name) {
        None => Seq::empty(),
        Some(_) if m.joints@.len() == 0 => Seq::empty(),
        Some(i) => {
            let kf = m.kf_qpos@[i]@;
            if kf.len() != 7 + m.joints@.len() {
                Seq::empty()
            } else {
                Seq::new(
                    q_names.len(),
                    |s: int|
                        match last_joint_named(m.joints@, q_names[s]@) {
                            Some(k) => kf[7 + k],
                            None => zero,
                        },
                )
            }
        },
    }
}

impl<N: Copy, P: Copy, Q: Copy> MjcfModel<N, P, Q> {
    /// The keyframe table holds one row per name.
    pub open spec fn tables_agree(self) -> bool {
        self.kf_names@.len() == self.kf_qpos@.len()
    }

    /// Every keyframe name has its row (the name's position indexes the row table).
    pub open spec fn rows_cover_names(self) -> bool {
        self.kf_names@.len() <= self.kf_qpos@.len()
    }

    /// The keyframe named `name` (None for an absent name; the callers all guard).
    pub fn kf_index(&self, name: &str) -> (r: Option<usize>)
        ensures
            r matches Some(k) ==> k < self.kf_names@.len() && first_pos(names_of(self.kf_names@), name@) == Some(k as int),
            r is None ==> first_pos(names_of(self.kf_names@), name@) is None,
    {
        find_name(&self.kf_names, name)
    }

    /// Maps a keyframe's qpos (MJCF layout: free joint 7, then the joints in MJCF document order)
    /// into an arbitrary q order by joint name; empty when the keyframe or the joint table is
    /// missing.
    pub fn keyframe_q(&self, name: &str, q_names: &Vec<String>, zero: N) -> (r: Vec<N>)
        requires
            self.rows_cover_names(),
        ensures
            r@ == spec_keyframe_q(*self, name@, q_names@, zero),
    {
        let kfi = match self.kf_index(name) {
            None => {
                return Vec::new();
            },
            Some(k) => k,
        };
        let nj = self.joints.len();
        if nj == 0 {
            return Vec::new();
        }
        let kf = &self.kf_qpos[kfi];
        if kf.len() < 7 || kf.len() - 7 != nj {
            return Vec::new();
        }
        let mut out: Vec<N> = Vec::new();
        let mut i: usize = 0;
        while i < q_names.len()
            invariant
                i <= q_names@.len(),
                kf@ == self.kf_qpos@[kfi as int]@,
                kf@.len() == 7 + self.joints@.len(),
                nj == self.joints@.len(),
                7 + nj <= usize::MAX,
                out@.len() == i,
                forall|s: int|
                    0 <= s < i ==> #[trigger] out@[s] == match last_joint_named(
                        self.joints@,
                        q_names@[s]@,
                    ) {
                        Some(k) => kf@[7 + k],
                        None => zero,
                    },
            decreases q_names@.len() - i,
        {
            let v = match find_last_joint(&self.joints, q_names[i].as_str()) {
                Some(k) => kf[7 + k],
                None => zero,
            };
            out.push(v);
            i = i + 1;
        }
        assert(out@ =~= spec_keyframe_q(*self, name@, q_names@, zero));
        out
    }

    /// The base pose a keyframe starts with: the first seven values of its row (position, then the
    /// w x y z quaternion); the pose `rest` (the origin and the identity rotation, in the numbers
    /// the caller uses) when the keyframe is missing or its row is shorter.
    pub fn keyframe_base(&self, name: &str, rest: &Vec<N>) -> (r: Vec<N>)
        requires
            self.rows_cover_names(),
            rest@.len() == 7,
        ensures
            r@ == match first_pos(names_of(self.kf_names@), name@) {
                Some(i) if self.kf_qpos@[i]@.len() >= 7 => self.kf_qpos@[i]@.take(7),
                _ => rest@,
            },
    {
        let kfi = match self.kf_index(name) {
            None => {
                return copy_row(rest);
            },
            Some(k) => k,
        };
        let kf = &self.kf_qpos[kfi];
        if kf.len() < 7 {
            return copy_row(rest);
        }
        let mut out: Vec<N> = Vec::new();
        let mut i: usize = 0;
        while i < 7
            invariant
                i <= 7,
                kf@ == self.kf_qpos@[kfi as int]@,
                kf@.len() >= 7,
                out@ =~= kf@.take(i as int),
            decreases 7 - i,
        {
            out.push(kf[i]);
            i = i + 1;
        }
        out
    }

    /// One joint's sidecar row: the first row named `name`, or, when there is none, a row of that
    /// name whose numbers are all `zero`.
    pub fn joint_extra(&self, name: &str, zero: N) -> (r: MjcfJointExtra<N>)
        ensures
            r.name@ == name@,
            match first_joint_named(self.joints@, name@) {
                Some(i) => {
                    let j = self.joints@[i];
                    &&& r.damping == j.damping
                    &&& r.friction == j.friction
                    &&& r.armature == j.armature
                    &&& r.effort_lo == j.effort_lo
                    &&& r.effort_hi == j.effort_hi
                },
                None => r.damping == zero && r.friction == zero && r.armature == zero
                    && r.effort_lo == zero && r.effort_hi == zero,
            },
    {
        let mut i: usize = 0;
        while i < self.joints.len()
            invariant
                i <= self.joints@.len(),
                forall|j: int| 0 <= j < i ==> self.joints@[j].name@ != name@,
            decreases self.joints@.len() - i,
        {
            let j = &self.joints[i];
            if str_eq(j.name.as_str(), name) {
                let ghost c = first_joint_named(self.joints@, name@)->0;
                assert(c == i) by {
                    if c > i {
                        assert(self.joints@[i as int].name@ == name@);
                    }
                }
                return MjcfJointExtra {
                    name: j.name.clone(),
                    damping: j.damping,
                    friction: j.friction,
                    armature: j.armature,
                    effort_lo: j.effort_lo,
                    effort_hi: j.effort_hi,
                };
            }
            i = i + 1;
        }
        MjcfJointExtra {
            name: String::from_str(name),
            damping: zero,
            friction: zero,
            armature: zero,
            effort_lo: zero,
            effort_hi: zero,
        }
    }

    /// A named site: the first site named `name`, or, when there is none, a site of that name on
    /// no body at `pos0` and `quat0`.
    pub fn site(&self, name: &str, pos0: P, quat0: Q) -> (r: MjcfSite<P, Q>)
        ensures
            r.name@ == name@,
            match first_site_named(self.sites@, name@) {
                Some(i) => r.body@ == self.sites@[i].body@ && r.pos == self.sites@[i].pos && r.quat
                    == self.sites@[i].quat,
                None => r.body@ == Seq::<char>::empty() && r.pos == pos0 && r.quat == quat0,
            },
    {
        site_in(&self.sites, name, pos0, quat0)
    }

    /// Merges keyframe rows over the table: a row whose name the table already holds replaces that
    /// keyframe's row (the first of that name), any other is appended.
    #[verifier::rlimit(40)]
    pub fn merge_keyframes(&mut self, names: Vec<String>, rows: Vec<Vec<N>>)
        requires
            old(self).tables_agree(),
            names@.len() == rows@.len(),
        ensures
            final(self).tables_agree(),
            final(self).urdf == old(self).urdf,
            final(self).joints == old(self).joints,
            final(self).sites == old(self).sites,
            names_of(final(self).kf_names@) == merged_names(
                names_of(old(self).kf_names@),
                names_of(names@),
            ),
            forall|i: int|
                0 <= i < final(self).kf_qpos@.len() ==> #[trigger] final(self).kf_qpos@[i]@
                    == merged_row(
                    names_of(old(self).kf_names@),
                    rows_of(old(self).kf_qpos@),
                    names_of(names@),
                    rows_of(rows@),
                    i,
                ),
    {
        let ghost n0 = names_of(self.kf_names@);
        let ghost r0 = rows_of(self.kf_qpos@);
        let ghost nn = names_of(names@);
        let ghost rr = rows_of(rows@);
        let total = names.len();
        let mut names = names;
        let mut rows = rows;
        let mut t: usize = 0;
        assert(nn.take(0) =~= Seq::<Seq<char>>::empty());
        assert(rr.take(0) =~= Seq::<Seq<N>>::empty());
        while t < total
            invariant
                t <= total,
                total == nn.len(),
                nn.len() == rr.len(),
                names@.len() == total - t,
                rows@.len() == total - t,
                names_of(names@) == nn.skip(t as int),
                rows_of(rows@) == rr.skip(t as int),
                self.tables_agree(),
                self.urdf == old(self).urdf,
                self.joints == old(self).joints,
                self.sites == old(self).sites,
                names_of(self.kf_names@) == merged_names(n0, nn.take(t as int)),
                forall|i: int|
                    0 <= i < self.kf_qpos@.len() ==> #[trigger] self.kf_qpos@[i]@ == merged_row(
                        n0,
                        r0,
                        nn.take(t as int),
                        rr.take(t as int),
                        i,
                    ),
            decreases total - t,
        {
            let ghost names_before = names@;
            let ghost rows_before = rows@;
            let n = names.remove(0);
            let r = rows.remove(0);
            assert(names_of(names_before)[0] == n@);
            assert(rows_of(rows_before)[0] == r@);
            assert(nn.skip(t as int)[0] == nn[t as int]);
            assert(rr.skip(t as int)[0] == rr[t as int]);
            assert forall|i: int| 0 <= i < names@.len() implies names_of(names@)[i] == nn.skip(t + 1)[i] by {
                assert(names@[i] == names_before[i + 1]);
                assert(names_of(names_before)[i + 1] == nn.skip(t as int)[i + 1]);
            }
            assert forall|i: int| 0 <= i < rows@.len() implies rows_of(rows@)[i] == rr.skip(t + 1)[i] by {
                assert(rows@[i] == rows_before[i + 1]);
                assert(rows_of(rows_before)[i + 1] == rr.skip(t as int)[i + 1]);
            }
            assert(names_of(names@) =~= nn.skip(t + 1));
            assert(rows_of(rows@) =~= rr.skip(t + 1));
            let ghost before_rows = self.kf_qpos@;
            let ghost mn = merged_names(n0, nn.take(t as int));
            let ghost nt = nn.take(t + 1);
            let ghost rt = rr.take(t + 1);
            assert(nt.drop_last() =~= nn.take(t as int));
            assert(rt.drop_last() =~= rr.take(t as int));
            assert(nt.last() == n@);
            assert(rt.last() == r@);
            match self.kf_index(n.as_str()) {
                Some(j) => {
                    self.kf_qpos.set(j, r);
                    assert(names_of(self.kf_names@) == merged_names(n0, nt));
                    assert forall|i: int| 0 <= i < self.kf_qpos@.len() implies #[trigger] self.kf_qpos@[i]@
                        == merged_row(n0, r0, nt, rt, i) by {
                        if i != j {
                            assert(self.kf_qpos@[i] == before_rows[i]);
                        }
                    }
                },
                None => {
                    self.kf_names.push(n);
                    self.kf_qpos.push(r);
                    assert(names_of(self.kf_names@) =~= mn.push(nt.last()));
                    assert forall|i: int| 0 <= i < self.kf_qpos@.len() implies #[trigger] self.kf_qpos@[i]@
                        == merged_row(n0, r0, nt, rt, i) by {
                        if i < before_rows.len() {
                            assert(self.kf_qpos@[i] == before_rows[i]);
                        }
                    }
                },
            }
            t = t + 1;
        }
        assert(nn.take(total as int) =~= nn);
        assert(rr.take(total as int) =~= rr);
    }
}

/// The positions, below `upto`, of the joint rows named `name`, in order.
pub open spec fn rows_named<N>(joints: Seq<MjcfJointExtra<N>>, name: Seq<char>, upto: int) -> Seq<int>
    decreases upto,
{
    if upto <= 0 {
        Seq::empty()
    } else {
        let s = rows_named(joints, name, upto - 1);
        if joints[upto - 1].name@ == name {
            s.push(upto - 1)
        } else {
            s
        }
    }
}

/// The positions of all joint rows named `name`, in table order (the converter reads the last of
/// them and updates every one).
pub fn joint_rows<N>(joints: &Vec<MjcfJointExtra<N>>, name: &str) -> (r: Vec<usize>)
    ensures
        r@.map_values(|k: usize| k as int) == rows_named(joints@, name@, joints@.len() as int),
        forall|i: int| 0 <= i < r@.len() ==> #[trigger] r@[i] < joints@.len(),
{
    let mut out: Vec<usize> = Vec::new();
    let mut i: usize = 0;
    while i < joints.len()
        invariant
            i <= joints@.len(),
            out@.map_values(|k: usize| k as int) == rows_named(joints@, name@, i as int),
            forall|j: int| 0 <= j < out@.len() ==> #[trigger] out@[j] < i,
        decreases joints@.len() - i,
    {
        let ghost before = out@;
        if str_eq(joints[i].name.as_str(), name) {
            out.push(i);
            assert(out@.map_values(|k: usize| k as int) =~= before.map_values(|k: usize| k as int).push(
                i as int,
            ));
        }
        i = i + 1;
    }
    out
}

/// A copy of a row of numbers.
fn copy_row<N: Copy>(row: &Vec<N>) -> (r: Vec<N>)
    ensures
        r@ == row@,
{
    let mut out: Vec<N> = Vec::new();
    let mut i: usize = 0;
    while i < row.len()
        invariant
            i <= row@.len(),
            out@ =~= row@.take(i as int),
        decreases row@.len() - i,
    {
        out.push(row[i]);
        i = i + 1;
    }
    assert(row@.take(row@.len() as int) =~= row@);
    out
}

/// The first position of `name` in a name table.
pub fn find_name(names: &Vec<String>, name: &str) -> (r: Option<usize>)
    ensures
        r matches Some(k) ==> k < names@.len() && first_pos(names_of(names@), name@) == Some(k as int),
        r is None ==> first_pos(names_of(names@), name@) is None,
{
    let ghost v = names_of(names@);
    let mut i: usize = 0;
    while i < names.len()
        invariant
            v == names_of(names@),
            i <= names@.len(),
            forall|j: int| 0 <= j < i ==> v[j] != name@,
        decreases names@.len() - i,
    {
        if str_eq(names[i].as_str(), name) {
            assert(v[i as int] == name@);
            let ghost c = first_pos(v, name@)->0;
            assert(c == i) by {
                if c > i {
                    assert(v[i as int] == name@);
                }
            }
            return Some(i);
        }
        assert(v[i as int] != name@);
        i = i + 1;
    }
    None
}

/// The last joint row named `name`.
fn find_last_joint<N>(joints: &Vec<MjcfJointExtra<N>>, name: &str) -> (r: Option<usize>)
    ensures
        r matches Some(k) ==> k < joints@.len() && last_joint_named(joints@, name@) == Some(k as int),
        r is None ==> last_joint_named(joints@, name@) is None,
{
    let mut k = joints.len();
    assert(joints@.take(k as int) =~= joints@);
    while k > 0
        invariant
            k <= joints@.len(),
            last_joint_named(joints@, name@) == last_joint_named(joints@.take(k as int), name@),
        decreases k,
    {
        assert(joints@.take(k as int).drop_last() =~= joints@.take(k - 1));
        if str_eq(joints[k - 1].name.as_str(), name) {
            assert(joints@.take(k as int).last() == joints@[k - 1]);
            return Some(k - 1);
        }
        k = k - 1;
    }
    None
}

pub open spec fn names_of(s: Seq<String>) -> Seq<Seq<char>> {
    s.map_values(|x: String| x@)
}

pub open spec fn rows_of<N>(s: Seq<Vec<N>>) -> Seq<Seq<N>> {
    s.map_values(|x: Vec<N>| x@)
}

/// The first position of `name` in a list of names.
pub open spec fn first_pos(names: Seq<Seq<char>>, name: Seq<char>) -> Option<int> {
    if exists|i: int| 0 <= i < names.len() && names[i] == name {
        Some(
            choose|i: int|
                0 <= i < names.len() && names[i] == name && forall|j: int|
                    0 <= j < i ==> names[j] != name,
        )
    } else {
        None
    }
}

proof fn lemma_min_witness(s: Seq<Seq<char>>, y: Seq<char>, k: int)
    requires
        0 <= k < s.len(),
        s[k] == y,
    ensures
        exists|i: int| 0 <= i < s.len() && s[i] == y && forall|j: int| 0 <= j < i ==> s[j] != y,
    decreases k,
{
    if exists|j: int| 0 <= j < k && s[j] == y {
        let j = choose|j: int| 0 <= j < k && s[j] == y;
        lemma_min_witness(s, y, j);
    } else {
        assert(forall|j: int| 0 <= j < k ==> s[j] != y);
    }
}

/// `first_pos` finds the first occurrence, and only when there is one.
proof fn lemma_first_pos(s: Seq<Seq<char>>, y: Seq<char>)
    ensures
        first_pos(s, y) matches Some(i) ==> 0 <= i < s.len() && s[i] == y && forall|j: int|
            0 <= j < i ==> s[j] != y,
        first_pos(s, y) is None ==> forall|j: int| 0 <= j < s.len() ==> s[j] != y,
{
    if exists|i: int| 0 <= i < s.len() && s[i] == y {
        let k = choose|i: int| 0 <= i < s.len() && s[i] == y;
        lemma_min_witness(s, y, k);
    }
}

proof fn lemma_first_pos_unique(s: Seq<Seq<char>>, y: Seq<char>, i: int)
    requires
        0 <= i < s.len(),
        s[i] == y,
        forall|j: int| 0 <= j < i ==> s[j] != y,
    ensures
        first_pos(s, y) == Some(i),
{
    lemma_first_pos(s, y);
    let c = first_pos(s, y)->0;
    if c < i {
        assert(s[c] != y);
    } else if c > i {
        assert(s[i] != y);
    }
}

/// Merging keeps the table's names where they are and only appends.
proof fn lemma_merged_names_extends(base: Seq<Seq<char>>, new: Seq<Seq<char>>)
    ensures
        merged_names(base, new).len() >= base.len(),
        merged_names(base, new).take(base.len() as int) == base,
    decreases new.len(),
{
    if new.len() > 0 {
        lemma_merged_names_extends(base, new.drop_last());
        let pre = merged_names(base, new.drop_last());
        assert(pre.push(new.last()).take(base.len() as int) =~= pre.take(base.len() as int));
    }
}

/// Robot rows the scene does not name survive the merge: a keyframe whose name no merged row
/// carries keeps its name, its position and its row.
pub proof fn law_unnamed_rows_stay<N>(
    base: Seq<Seq<char>>,
    base_rows: Seq<Seq<N>>,
    new: Seq<Seq<char>>,
    new_rows: Seq<Seq<N>>,
    i: int,
)
    requires
        new.len() == new_rows.len(),
        0 <= i < base.len(),
        forall|k: int| 0 <= k < new.len() ==> new[k] != base[i],
    ensures
        merged_names(base, new)[i] == base[i],
        merged_row(base, base_rows, new, new_rows, i) == base_rows[i],
    decreases new.len(),
{
    lemma_merged_names_extends(base, new);
    assert(merged_names(base, new).take(base.len() as int)[i] == merged_names(base, new)[i]);
    if new.len() > 0 {
        let nd = new.drop_last();
        let rd = new_rows.drop_last();
        law_unnamed_rows_stay(base, base_rows, nd, rd, i);
        let pre = merged_names(base, nd);
        lemma_merged_names_extends(base, nd);
        assert(pre.take(base.len() as int)[i] == pre[i]);
        lemma_first_pos(pre, new.last());
        assert(new.last() != base[i]);
        match first_pos(pre, new.last()) {
            Some(j) => {
                assert(j != i);
            },
            None => {
                assert(i != pre.len());
            },
        }
    }
}

/// Scene rows win on name collisions: after merging `new` over `base`, the keyframe of a merged
/// name (its first position in the table) holds the last merged row of that name.
pub proof fn law_merged_row_wins<N>(
    base: Seq<Seq<char>>,
    base_rows: Seq<Seq<N>>,
    new: Seq<Seq<char>>,
    new_rows: Seq<Seq<N>>,
    j: int,
)
    requires
        new.len() == new_rows.len(),
        0 <= j < new.len(),
        forall|k: int| j < k < new.len() ==> new[k] != new[j],
    ensures
        first_pos(merged_names(base, new), new[j]) matches Some(i) && merged_row(
            base,
            base_rows,
            new,
            new_rows,
            i,
        ) == new_rows[j],
    decreases new.len(),
{
    let pre = merged_names(base, new.drop_last());
    let y = new[j];
    lemma_first_pos(pre, new.last());
    if j == new.len() - 1 {
        match first_pos(pre, new.last()) {
            Some(jj) => {},
            None => {
                lemma_first_pos_unique(pre.push(new.last()), new.last(), pre.len() as int);
            },
        }
    } else {
        let nd = new.drop_last();
        let rd = new_rows.drop_last();
        assert(nd[j] == y);
        law_merged_row_wins(base, base_rows, nd, rd, j);
        let i = first_pos(pre, y)->0;
        lemma_first_pos(pre, y);
        assert(new.last() != y);
        match first_pos(pre, new.last()) {
            Some(jj) => {
                assert(jj != i);
            },
            None => {
                let m = pre.push(new.last());
                assert forall|k: int| 0 <= k < i implies m[k] != y by {
                    assert(m[k] == pre[k]);
                }
                lemma_first_pos_unique(m, y, i);
            },
        }
    }
}

/// The keyframe names after merging `new` over `base`: a name already present stays where it is, a
/// new one is appended.
pub open spec fn merged_names(base: Seq<Seq<char>>, new: Seq<Seq<char>>) -> Seq<Seq<char>>
    decreases new.len(),
{
    if new.len() == 0 {
        base
    } else {
        let pre = merged_names(base, new.drop_last());
        match first_pos(pre, new.last()) {
            Some(_) => pre,
            None => pre.push(new.last()),
        }
    }
}

/// The row at position `i` after merging `new_rows` (named `new`) over `base_rows` (named `base`):
/// the last merged row of the name that holds position `i`, else the base row.
pub open spec fn merged_row<N>(
    base: Seq<Seq<char>>,
    base_rows: Seq<Seq<N>>,
    new: Seq<Seq<char>>,
    new_rows: Seq<Seq<N>>,
    i: int,
) -> Seq<N>
    decreases new.len(),
{
    if new.len() == 0 {
        base_rows[i]
    } else {
        let pre = merged_names(base, new.drop_last());
        match first_pos(pre, new.last()) {
            Some(j) => if j == i {
                new_rows.last()
            } else {
                merged_row(base, base_rows, new.drop_last(), new_rows.drop_last(), i)
            },
            None => if i == pre.len() {
                new_rows.last()
            } else {
                merged_row(base, base_rows, new.drop_last(), new_rows.drop_last(), i)
            },
        }
    }
}

/// The first site named `name` in a site table, or a site of that name on no body at `pos0` and
/// `quat0`.
pub fn site_in<P: Copy, Q: Copy>(sites: &Vec<MjcfSite<P, Q>>, name: &str, pos0: P, quat0: Q) -> (r:
    MjcfSite<P, Q>)
    ensures
        r.name@ == name@,
        match first_site_named(sites@, name@) {
            Some(i) => r.body@ == sites@[i].body@ && r.pos == sites@[i].pos && r.quat
                == sites@[i].quat,
            None => r.body@ == Seq::<char>::empty() && r.pos == pos0 && r.quat == quat0,
        },
{
    let mut i: usize = 0;
    while i < sites.len()
        invariant
            i <= sites@.len(),
            forall|j: int| 0 <= j < i ==> sites@[j].name@ != name@,
        decreases sites@.len() - i,
    {
        let s = &sites[i];
        if str_eq(s.name.as_str(), name) {
            let ghost c = first_site_named(sites@, name@)->0;
            assert(c == i) by {
                if c > i {
                    assert(sites@[i as int].name@ == name@);
                }
            }
            return MjcfSite { name: s.name.clone(), body: s.body.clone(), pos: s.pos, quat: s.quat };
        }
        i = i + 1;
    }
    MjcfSite { name: String::from_str(name), body: String::new(), pos: pos0, quat: quat0 }
}

} // verus!

//! The MJCF -> URDF bridge's reading side: the number lists of MJCF attributes split into their
//! tokens, the mesh asset table, the keyframe rows, and the walk over the nested bodies with the
//! checks that reject what a serial-hinge URDF cannot carry. Bodies nest and T(q) = T(pos,quat) *
//! R(axis,q) with (w,x,y,z) quats; a <freejoint/> body becomes the URDF ROOT LINK (the engine
//! injects the Free world joint; a synthetic link would double the root). Serial hinge chains only.
use crate::text::{cat, push_char, str_eq};
use crate::vfmt::{decimal, push_decimal};
use crate::xml::{attr_or_value, attr_value, XmlNode};
use vstd::prelude::*;

verus! {

/// The characters `char::is_whitespace` accepts (Unicode White_Space).
pub open spec fn is_ws(c: char) -> bool {
    let u = c as u32;
    (0x9 <= u <= 0xd) || u == 0x20 || u == 0x85 || u == 0xa0 || u == 0x1680 || (0x2000 <= u
        <= 0x200a) || u == 0x2028 || u == 0x2029 || u == 0x202f || u == 0x205f || u == 0x3000
}

fn char_is_ws(c: char) -> (r: bool)
    ensures
        r == is_ws(c),
{
    let u = c as u32;
    (0x9 <= u && u <= 0xd) || u == 0x20 || u == 0x85 || u == 0xa0 || u == 0x1680 || (0x2000 <= u
        && u <= 0x200a) || u == 0x2028 || u == 0x2029 || u == 0x202f || u == 0x205f || u == 0x3000
}

/// The separators an MJCF number list is split on.
pub open spec fn is_list_sep(c: char) -> bool {
    c == ' ' || c == '\t' || c == '\n'
}

/// The pieces of `s` between separators, empty pieces included (`str::split`).
pub open spec fn split_pieces(s: Seq<char>) -> Seq<Seq<char>>
    decreases s.len(),
{
    if s.len() == 0 {
        seq![Seq::empty()]
    } else {
        let p = split_pieces(s.drop_last());
        if is_list_sep(s.last()) {
            p.push(Seq::empty())
        } else {
            p.update(p.len() - 1, p.last().push(s.last()))
        }
    }
}

proof fn lemma_split_nonempty(s: Seq<char>)
    ensures
        split_pieces(s).len() >= 1,
    decreases s.len(),
{
    if s.len() > 0 {
        lemma_split_nonempty(s.drop_last());
    }
}

pub open spec fn trim_start(s: Seq<char>) -> Seq<char>
    decreases s.len(),
{
    if s.len() > 0 && is_ws(s[0]) {
        trim_start(s.drop_first())
    } else {
        s
    }
}

pub open spec fn trim_end(s: Seq<char>) -> Seq<char>
    decreases s.len(),
{
    if s.len() > 0 && is_ws(s.last()) {
        trim_end(s.drop_last())
    } else {
        s
    }
}

/// `s` without leading and trailing whitespace (`str::trim`).
pub open spec fn trim(s: Seq<char>) -> Seq<char> {
    trim_end(trim_start(s))
}

/// The non-empty trimmed pieces, in order.
pub open spec fn nonempty_trimmed(pieces: Seq<Seq<char>>) -> Seq<Seq<char>>
    decreases pieces.len(),
{
    if pieces.len() == 0 {
        Seq::empty()
    } else {
        let t = nonempty_trimmed(pieces.drop_last());
        if trim(pieces.last()).len() > 0 {
            t.push(trim(pieces.last()))
        } else {
            t
        }
    }
}

/// The tokens of an MJCF number list: the text split on spaces, tabs and newlines, each piece
/// trimmed, the empty ones dropped. Each token is one number of the list.
pub open spec fn list_tokens(s: Seq<char>) -> Seq<Seq<char>> {
    nonempty_trimmed(split_pieces(s))
}

fn trimmed(s: &str) -> (r: String)
    ensures
        r@ == trim(s@),
{
    let n = s.unicode_len();
    let mut a: usize = 0;
    assert(s@.skip(0) =~= s@);
    while a < n && char_is_ws(s.get_char(a))
        invariant
            n == s@.len(),
            a <= n,
            trim_start(s@) == trim_start(s@.skip(a as int)),
        decreases n - a,
    {
        assert(s@.skip(a as int).drop_first() =~= s@.skip(a + 1));
        a = a + 1;
    }
    let ghost ts = s@.skip(a as int);
    assert(trim_start(ts) == ts);
    let mut b: usize = n;
    assert(ts.take(b - a) =~= ts);
    while b > a && char_is_ws(s.get_char(b - 1))
        invariant
            n == s@.len(),
            a <= b <= n,
            ts == s@.skip(a as int),
            trim_end(ts) == trim_end(ts.take(b - a)),
        decreases b,
    {
        assert(ts.take(b - a).drop_last() =~= ts.take(b - a - 1));
        b = b - 1;
    }
    assert(trim_end(ts.take(b - a)) == ts.take(b - a));
    let mut out = String::new();
    let mut i = a;
    while i < b
        invariant
            n == s@.len(),
            a <= i <= b <= n,
            out@ == s@.subrange(a as int, i as int),
        decreases b - i,
    {
        push_char(&mut out, s.get_char(i));
        assert(s@.subrange(a as int, i + 1) =~= s@.subrange(a as int, i as int).push(s@[i as int]));
        i = i + 1;
    }
    assert(out@ =~= ts.take(b - a));
    out
}

/// The tokens of an MJCF number list attribute.
pub fn float_tokens(s: &str) -> (r: Vec<String>)
    ensures
        r@.map_values(|t: String| t@) == list_tokens(s@),
{
    let n = s.unicode_len();
    let mut out: Vec<String> = Vec::new();
    let mut cur = String::new();
    let mut i: usize = 0;
    assert(s@.take(0) =~= Seq::<char>::empty());
    while i < n
        invariant
            n == s@.len(),
            i <= n,
            split_pieces(s@.take(i as int)).len() >= 1,
            cur@ == split_pieces(s@.take(i as int)).last(),
            out@.map_values(|t: String| t@) == nonempty_trimmed(
                split_pieces(s@.take(i as int)).drop_last(),
            ),
        decreases n - i,
    {
        let c = s.get_char(i);
        let ghost p = split_pieces(s@.take(i as int));
        assert(s@.take(i + 1).drop_last() =~= s@.take(i as int));
        assert(s@.take(i + 1).last() == c);
        if c == ' ' || c == '\t' || c == '\n' {
            let t = trimmed(cur.as_str());
            let ghost before = out@;
            if t.unicode_len() > 0 {
                out.push(t);
                assert(out@.map_values(|t: String| t@) =~= before.map_values(|t: String| t@).push(
                    trim(p.last()),
                ));
            }
            assert(p.push(Seq::<char>::empty()).drop_last() =~= p);
            assert(p.drop_last().push(p.last()) =~= p);
            cur = String::new();
        } else {
            push_char(&mut cur, c);
            let ghost q = p.update(p.len() - 1, p.last().push(c));
            assert(q.drop_last() =~= p.drop_last());
        }
        proof {
            lemma_split_nonempty(s@.take(i + 1));
        }
        i = i + 1;
    }
    assert(s@.take(n as int) =~= s@);
    let t = trimmed(cur.as_str());
    let ghost p = split_pieces(s@);
    let ghost before = out@;
    assert(p.drop_last().push(p.last()) =~= p);
    if t.unicode_len() > 0 {
        out.push(t);
        assert(out@.map_values(|t: String| t@) =~= before.map_values(|t: String| t@).push(
            trim(p.last()),
        ));
    }
    out
}

/// The position of the last `c` in `s`.
pub open spec fn last_index_of(s: Seq<char>, c: char) -> Option<int>
    decreases s.len(),
{
    if s.len() == 0 {
        None
    } else if s.last() == c {
        Some(s.len() - 1)
    } else {
        last_index_of(s.drop_last(), c)
    }
}

fn find_last(s: &str, c: char) -> (r: Option<usize>)
    ensures
        r matches Some(k) ==> k < s@.len() && last_index_of(s@, c) == Some(k as int),
        r is None ==> last_index_of(s@, c) is None,
{
    let mut k = s.unicode_len();
    assert(s@.take(k as int) =~= s@);
    while k > 0
        invariant
            k <= s@.len(),
            last_index_of(s@, c) == last_index_of(s@.take(k as int), c),
        decreases k,
    {
        assert(s@.take(k as int).drop_last() =~= s@.take(k - 1));
        if s.get_char(k - 1) == c {
            return Some(k - 1);
        }
        k = k - 1;
    }
    None
}

fn substring(s: &str, from: usize, to: usize) -> (r: String)
    requires
        from <= to <= s@.len(),
    ensures
        r@ == s@.subrange(from as int, to as int),
{
    let mut out = String::new();
    let mut i = from;
    while i < to
        invariant
            from <= i <= to <= s@.len(),
            out@ == s@.subrange(from as int, i as int),
        decreases to - i,
    {
        push_char(&mut out, s.get_char(i));
        assert(s@.subrange(from as int, i + 1) =~= s@.subrange(from as int, i as int).push(
            s@[i as int],
        ));
        i = i + 1;
    }
    out
}

/// The name an unnamed mesh takes: its file name (after the last '/') without the extension
/// (from the last '.').
pub open spec fn mesh_name_of_file(file: Seq<char>) -> Seq<char> {
    let fname = match last_index_of(file, '/') {
        Some(i) => file.skip(i + 1),
        None => file,
    };
    match last_index_of(fname, '.') {
        Some(i) => fname.take(i),
        None => fname,
    }
}

proof fn lemma_last_index_of(s: Seq<char>, c: char)
    ensures
        last_index_of(s, c) matches Some(i) ==> 0 <= i < s.len() && s[i] == c && forall|j: int|
            i < j < s.len() ==> s[j] != c,
        last_index_of(s, c) is None ==> forall|j: int| 0 <= j < s.len() ==> s[j] != c,
    decreases s.len(),
{
    if s.len() > 0 && s.last() != c {
        let p = s.drop_last();
        lemma_last_index_of(p, c);
        assert forall|j: int| 0 <= j < p.len() implies p[j] == s[j] by {}
        assert(s[s.len() - 1] != c);
    }
}

/// `file` is `dir`, then `name`, then `ext`: the directory part is empty or ends in '/'; neither the
/// name nor the extension holds a '/'; the extension is empty, and then the name holds no '.', or
/// it is a '.' and no further '.'.
pub open spec fn base_name_split(file: Seq<char>, dir: Seq<char>, name: Seq<char>, ext: Seq<char>) -> bool {
    &&& file == dir + name + ext
    &&& dir.len() == 0 || dir.last() == '/'
    &&& forall|i: int| 0 <= i < name.len() ==> name[i] != '/'
    &&& forall|i: int| 0 <= i < ext.len() ==> ext[i] != '/'
    &&& ext.len() == 0 ==> forall|i: int| 0 <= i < name.len() ==> name[i] != '.'
    &&& ext.len() > 0 ==> ext[0] == '.' && forall|i: int| 1 <= i < ext.len() ==> ext[i] != '.'
}

/// The name of an unnamed mesh is its file's base name without the extension: the part after the
/// last '/', cut before its last '.'.
pub proof fn law_mesh_name_is_base_name(file: Seq<char>)
    ensures
        exists|dir: Seq<char>, ext: Seq<char>| #[trigger] base_name_split(file, dir, mesh_name_of_file(file), ext),
{
    lemma_last_index_of(file, '/');
    let (dir, fname) = match last_index_of(file, '/') {
        Some(i) => (file.take(i + 1), file.skip(i + 1)),
        None => (Seq::<char>::empty(), file),
    };
    assert(file =~= dir + fname);
    assert forall|i: int| 0 <= i < fname.len() implies fname[i] != '/' by {
        if let Some(k) = last_index_of(file, '/') {
            assert(fname[i] == file[k + 1 + i]);
        }
    }
    lemma_last_index_of(fname, '.');
    let name = mesh_name_of_file(file);
    let ext = match last_index_of(fname, '.') {
        Some(j) => fname.skip(j),
        None => Seq::<char>::empty(),
    };
    assert(fname =~= name + ext);
    assert(file =~= dir + name + ext);
    assert forall|i: int| 0 <= i < name.len() implies name[i] != '/' by {
        assert(name[i] == fname[i]);
    }
    assert forall|i: int| 0 <= i < ext.len() implies ext[i] != '/' by {
        assert(ext[i] == fname[name.len() + i]);
    }
    if ext.len() > 0 {
        let j = last_index_of(fname, '.')->0;
        assert(ext[0] == fname[j]);
        assert forall|i: int| 1 <= i < ext.len() implies ext[i] != '.' by {
            assert(ext[i] == fname[j + i]);
        }
    }
    if let Some(k) = last_index_of(file, '/') {
        assert(dir.last() == file[k]);
    }
    assert(base_name_split(file, dir, name, ext));
}

fn mesh_name_from_file(file: &str) -> (r: String)
    ensures
        r@ == mesh_name_of_file(file@),
{
    let n = file.unicode_len();
    let fname = match find_last(file, '/') {
        Some(i) => substring(file, i + 1, n),
        None => String::from_str(file),
    };
    assert(file@.subrange(0, n as int) =~= file@);
    match find_last(fname.as_str(), '.') {
        Some(i) => {
            let r = substring(fname.as_str(), 0, i);
            assert(r@ =~= fname@.take(i as int));
            r
        },
        None => fname,
    }
}

/// The (name, file) entries the `<mesh>` children of `meshes` contribute: a mesh without a file
/// contributes nothing, an unnamed one takes the name of its file.
pub open spec fn mesh_entries(meshes: Seq<XmlNode>) -> Seq<(Seq<char>, Seq<char>)>
    decreases meshes.len(),
{
    if meshes.len() == 0 {
        Seq::empty()
    } else {
        let pre = mesh_entries(meshes.drop_last());
        let a = meshes.last();
        let file = attr_or_value(a.attrs@, "file"@, ""@);
        let name = attr_or_value(a.attrs@, "name"@, ""@);
        if a.name@ != "mesh"@ || file.len() == 0 {
            pre
        } else if name.len() == 0 {
            pre.push((mesh_name_of_file(file), file))
        } else {
            pre.push((name, file))
        }
    }
}

/// The mesh entries of every `<asset>` block, in document order.
pub open spec fn asset_entries(children: Seq<XmlNode>) -> Seq<(Seq<char>, Seq<char>)>
    decreases children.len(),
{
    if children.len() == 0 {
        Seq::empty()
    } else {
        let pre = asset_entries(children.drop_last());
        if children.last().name@ == "asset"@ {
            pre + mesh_entries(children.last().children@)
        } else {
            pre
        }
    }
}

pub open spec fn pairs_of(s: Seq<(String, String)>) -> Seq<(Seq<char>, Seq<char>)> {
    s.map_values(|p: (String, String)| (p.0@, p.1@))
}

fn push_mesh_entries(meshes: &Vec<XmlNode>, out: &mut Vec<(String, String)>)
    ensures
        pairs_of(final(out)@) == pairs_of(old(out)@) + mesh_entries(meshes@),
{
    let ghost start = pairs_of(out@);
    let mut i: usize = 0;
    assert(meshes@.take(0) =~= Seq::<XmlNode>::empty());
    assert(start + Seq::<(Seq<char>, Seq<char>)>::empty() =~= start);
    while i < meshes.len()
        invariant
            i <= meshes@.len(),
            pairs_of(out@) == start + mesh_entries(meshes@.take(i as int)),
        decreases meshes@.len() - i,
    {
        let a = &meshes[i];
        assert(meshes@.take(i + 1).drop_last() =~= meshes@.take(i as int));
        assert(meshes@.take(i + 1).last() == meshes@[i as int]);
        let ghost pre = pairs_of(out@);
        proof {
            reveal_strlit("mesh");
        }
        if str_eq(a.name.as_str(), "mesh") {
            let file = a.attr_or("file", "");
            if file.unicode_len() > 0 {
                let mut name = a.attr_or("name", "");
                if name.unicode_len() == 0 {
                    name = mesh_name_from_file(file.as_str());
                }
                let ghost e = (name@, file@);
                out.push((name, file));
                assert(pairs_of(out@) =~= pre.push(e));
            }
        }
        i = i + 1;
    }
    assert(meshes@.take(meshes@.len() as int) =~= meshes@);
}

/// read_assets maps mesh names to files (`<asset><mesh name file>`); an unnamed mesh takes its
/// filename without extension. The entries come in document order; a later entry of a name
/// overrides an earlier one (see `asset_file`). The emitted filenames are relative to the URDF,
/// which sits beside the meshes, so the compiler's meshdir plays no part.
pub fn read_assets(root: &XmlNode) -> (r: Vec<(String, String)>)
    ensures
        pairs_of(r@) == asset_entries(root.children@),
{
    let mut out: Vec<(String, String)> = Vec::new();
    let mut i: usize = 0;
    let ch = &root.children;
    assert(ch@.take(0) =~= Seq::<XmlNode>::empty());
    assert(pairs_of(out@) =~= Seq::<(Seq<char>, Seq<char>)>::empty());
    while i < ch.len()
        invariant
            i <= ch@.len(),
            pairs_of(out@) == asset_entries(ch@.take(i as int)),
        decreases ch@.len() - i,
    {
        assert(ch@.take(i + 1).drop_last() =~= ch@.take(i as int));
        assert(ch@.take(i + 1).last() == ch@[i as int]);
        if str_eq(ch[i].name.as_str(), "asset") {
            push_mesh_entries(&ch[i].children, &mut out);
        }
        i = i + 1;
    }
    assert(ch@.take(ch@.len() as int) =~= ch@);
    out
}

/// The file of the mesh named `mesh`: the last entry of that name (a name-keyed table filled in
/// document order), or the name itself when no asset declares it.
pub open spec fn spec_asset_file(entries: Seq<(Seq<char>, Seq<char>)>, mesh: Seq<char>) -> Seq<char>
    decreases entries.len(),
{
    if entries.len() == 0 {
        mesh
    } else if entries.last().0 == mesh {
        entries.last().1
    } else {
        spec_asset_file(entries.drop_last(), mesh)
    }
}

/// The file a geom's mesh name stands for.
pub fn asset_file(assets: &Vec<(String, String)>, mesh: &str) -> (r: String)
    ensures
        r@ == spec_asset_file(pairs_of(assets@), mesh@),
{
    let ghost pv = pairs_of(assets@);
    let mut k = assets.len();
    assert(pv.take(k as int) =~= pv);
    while k > 0
        invariant
            k <= assets@.len(),
            pv == pairs_of(assets@),
            spec_asset_file(pv, mesh@) == spec_asset_file(pv.take(k as int), mesh@),
        decreases k,
    {
        assert(pv.take(k as int).drop_last() =~= pv.take(k - 1));
        assert(pv.take(k as int).last() == pv[k - 1]);
        if str_eq(assets[k - 1].0.as_str(), mesh) {
            return assets[k - 1].1.clone();
        }
        k = k - 1;
    }
    String::from_str(mesh)
}

/// The (name, qpos text) rows of the `<key>` elements of every `<keyframe>` block, in document
/// order.
pub open spec fn keyframe_entries(children: Seq<XmlNode>) -> Seq<(Seq<char>, Seq<char>)>
    decreases children.len(),
{
    if children.len() == 0 {
        Seq::empty()
    } else {
        let pre = keyframe_entries(children.drop_last());
        if children.last().name@ == "keyframe"@ {
            pre + key_entries(children.last().children@)
        } else {
            pre
        }
    }
}

pub open spec fn key_entries(keys: Seq<XmlNode>) -> Seq<(Seq<char>, Seq<char>)>
    decreases keys.len(),
{
    if keys.len() == 0 {
        Seq::empty()
    } else {
        let pre = key_entries(keys.drop_last());
        let k = keys.last();
        if k.name@ == "key"@ {
            pre.push((attr_or_value(k.attrs@, "name"@, ""@), attr_or_value(k.attrs@, "qpos"@, ""@)))
        } else {
            pre
        }
    }
}

fn push_key_entries(keys: &Vec<XmlNode>, out: &mut Vec<(String, String)>)
    ensures
        pairs_of(final(out)@) == pairs_of(old(out)@) + key_entries(keys@),
{
    let ghost start = pairs_of(out@);
    let mut i: usize = 0;
    assert(keys@.take(0) =~= Seq::<XmlNode>::empty());
    assert(start + Seq::<(Seq<char>, Seq<char>)>::empty() =~= start);
    while i < keys.len()
        invariant
            i <= keys@.len(),
            pairs_of(out@) == start + key_entries(keys@.take(i as int)),
        decreases keys@.len() - i,
    {
        let k = &keys[i];
        assert(keys@.take(i + 1).drop_last() =~= keys@.take(i as int));
        assert(keys@.take(i + 1).last() == keys@[i as int]);
        let ghost pre = pairs_of(out@);
        if str_eq(k.name.as_str(), "key") {
            let name = k.attr_or("name", "");
            let qpos = k.attr_or("qpos", "");
            let ghost e = (name@, qpos@);
            out.push((name, qpos));
            assert(pairs_of(out@) =~= pre.push(e));
        }
        i = i + 1;
    }
    assert(keys@.take(keys@.len() as int) =~= keys@);
}

/// The keyframe rows of an MJCF document: each `<key>`'s name and its qpos number list.
pub fn keyframe_rows(root: &XmlNode) -> (r: Vec<(String, String)>)
    ensures
        pairs_of(r@) == keyframe_entries(root.children@),
{
    let mut out: Vec<(String, String)> = Vec::new();
    let mut i: usize = 0;
    let ch = &root.children;
    assert(ch@.take(0) =~= Seq::<XmlNode>::empty());
    assert(pairs_of(out@) =~= Seq::<(Seq<char>, Seq<char>)>::empty());
    while i < ch.len()
        invariant
            i <= ch@.len(),
            pairs_of(out@) == keyframe_entries(ch@.take(i as int)),
        decreases ch@.len() - i,
    {
        assert(ch@.take(i + 1).drop_last() =~= ch@.take(i as int));
        assert(ch@.take(i + 1).last() == ch@[i as int]);
        if str_eq(ch[i].name.as_str(), "keyframe") {
            push_key_entries(&ch[i].children, &mut out);
        }
        i = i + 1;
    }
    assert(ch@.take(ch@.len() as int) =~= ch@);
    out
}

/// The (joint, class) rows of the `<position>` actuators of every `<actuator>` block, in document
/// order; an actuator that names no joint is skipped.
pub open spec fn actuator_entries(children: Seq<XmlNode>) -> Seq<(Seq<char>, Seq<char>)>
    decreases children.len(),
{
    if children.len() == 0 {
        Seq::empty()
    } else {
        let pre = actuator_entries(children.drop_last());
        if children.last().name@ == "actuator"@ {
            pre + position_entries(children.last().children@)
        } else {
            pre
        }
    }
}

pub open spec fn position_entries(acts: Seq<XmlNode>) -> Seq<(Seq<char>, Seq<char>)>
    decreases acts.len(),
{
    if acts.len() == 0 {
        Seq::empty()
    } else {
        let pre = position_entries(acts.drop_last());
        let a = acts.last();
        let joint = attr_or_value(a.attrs@, "joint"@, ""@);
        if a.name@ == "position"@ && joint.len() > 0 {
            pre.push((joint, attr_or_value(a.attrs@, "class"@, ""@)))
        } else {
            pre
        }
    }
}

fn push_position_entries(acts: &Vec<XmlNode>, out: &mut Vec<(String, String)>)
    ensures
        pairs_of(final(out)@) == pairs_of(old(out)@) + position_entries(acts@),
{
    let ghost start = pairs_of(out@);
    let mut i: usize = 0;
    assert(acts@.take(0) =~= Seq::<XmlNode>::empty());
    assert(start + Seq::<(Seq<char>, Seq<char>)>::empty() =~= start);
    while i < acts.len()
        invariant
            i <= acts@.len(),
            pairs_of(out@) == start + position_entries(acts@.take(i as int)),
        decreases acts@.len() - i,
    {
        let a = &acts[i];
        assert(acts@.take(i + 1).drop_last() =~= acts@.take(i as int));
        assert(acts@.take(i + 1).last() == acts@[i as int]);
        let ghost pre = pairs_of(out@);
        if str_eq(a.name.as_str(), "position") {
            let joint = a.attr_or("joint", "");
            if joint.unicode_len() > 0 {
                let class = a.attr_or("class", "");
                let ghost e = (joint@, class@);
                out.push((joint, class));
                assert(pairs_of(out@) =~= pre.push(e));
            }
        }
        i = i + 1;
    }
    assert(acts@.take(acts@.len() as int) =~= acts@);
}

/// The actuated joints of an MJCF document: each position actuator's joint and its default class
/// (the class carries the actuator's force range).
pub fn actuator_rows(root: &XmlNode) -> (r: Vec<(String, String)>)
    ensures
        pairs_of(r@) == actuator_entries(root.children@),
{
    let mut out: Vec<(String, String)> = Vec::new();
    let mut i: usize = 0;
    let ch = &root.children;
    assert(ch@.take(0) =~= Seq::<XmlNode>::empty());
    assert(pairs_of(out@) =~= Seq::<(Seq<char>, Seq<char>)>::empty());
    while i < ch.len()
        invariant
            i <= ch@.len(),
            pairs_of(out@) == actuator_entries(ch@.take(i as int)),
        decreases ch@.len() - i,
    {
        assert(ch@.take(i + 1).drop_last() =~= ch@.take(i as int));
        assert(ch@.take(i + 1).last() == ch@[i as int]);
        if str_eq(ch[i].name.as_str(), "actuator") {
            push_position_entries(&ch[i].children, &mut out);
        }
        i = i + 1;
    }
    assert(ch@.take(ch@.len() as int) =~= ch@);
    out
}

/// The robot name an MJCF document gives the URDF it converts to: its `model` attribute, or
/// "mjcf_robot" without one; a document whose root element is not `<mujoco>` is rejected.
pub open spec fn spec_robot_name(root: XmlNode, path: Seq<char>) -> Result<Seq<char>, Seq<char>> {
    if root.name@ != "mujoco"@ {
        Err("simu.mjcf_convert: "@ + path + " has no <mujoco> root"@)
    } else {
        Ok(attr_or_value(root.attrs@, "model"@, "mjcf_robot"@))
    }
}

/// The robot name of the MJCF document read from `path`.
pub fn robot_name(root: &XmlNode, path: &str) -> (r: Result<String, String>)
    ensures
        match spec_robot_name(*root, path@) {
            Ok(n) => r is Ok && r->Ok_0@ == n,
            Err(e) => r is Err && r->Err_0@ == e,
        },
{
    if !str_eq(root.name.as_str(), "mujoco") {
        return Err(cat(cat("simu.mjcf_convert: ", path).as_str(), " has no <mujoco> root"));
    }
    Ok(root.attr_or("model", "mjcf_robot"))
}

/// The position of the document's last `<worldbody>`, the one the body walk reads.
pub fn worldbody_index(root: &XmlNode) -> (r: Option<usize>)
    ensures
        r matches Some(k) ==> k < root.children@.len() && last_named(root.children@, "worldbody"@, root.children@.len() as int) == Some(k as int),
        r is None ==> last_named(root.children@, "worldbody"@, root.children@.len() as int) is None,
{
    let (_, w) = scan_named(&root.children, "worldbody");
    w
}

/// The `<compiler>` settings the conversion reads: the mesh directory and whether angles are in
/// degrees.
#[derive(Debug)]
pub struct CompilerSettings {
    pub meshdir: String,
    pub degrees: bool,
}

/// The settings of the last `<compiler>` element (a later one overrides an earlier one): its
/// `meshdir` (".", when it names none) and whether its `angle` is "degree"; none without one.
pub open spec fn spec_compiler(root: XmlNode) -> Option<(Seq<char>, bool)> {
    match last_named(root.children@, "compiler"@, root.children@.len() as int) {
        None => None,
        Some(k) => {
            let a = root.children@[k].attrs@;
            Some((attr_or_value(a, "meshdir"@, "."@), attr_or_value(a, "angle"@, "radian"@) == "degree"@))
        },
    }
}

/// The document's compiler settings, when it has a `<compiler>` element.
pub fn compiler_settings(root: &XmlNode) -> (r: Option<CompilerSettings>)
    ensures
        match spec_compiler(*root) {
            None => r is None,
            Some(c) => r matches Some(s) && (s.meshdir@, s.degrees) == c,
        },
{
    let (_, last) = scan_named(&root.children, "compiler");
    match last {
        None => None,
        Some(k) => {
            let el = &root.children[k];
            let angle = el.attr_or("angle", "radian");
            Some(CompilerSettings { meshdir: el.attr_or("meshdir", "."), degrees: str_eq(angle.as_str(), "degree") })
        },
    }
}

/// The revolute joint a body hangs from: the position of its `<joint>` element among the body's
/// children, the joint's name, and the default class its dynamics resolve through.
#[derive(Debug)]
pub struct JointPlan {
    pub hinge: usize,
    pub name: String,
    pub class: String,
}

/// One body of the walk: its name, its parent link ("world" for a top-level body), the positions
/// of the `<body>` elements leading to it from the worldbody, and its joint (none for a
/// freejoint body, which becomes the URDF root link).
#[derive(Debug)]
pub struct BodyPlan {
    pub name: String,
    pub parent: String,
    pub path: Vec<usize>,
    pub joint: Option<JointPlan>,
}

pub type JointPlanView = (usize, Seq<char>, Seq<char>);

pub type BodyPlanView = (Seq<char>, Seq<char>, Seq<usize>, Option<JointPlanView>);

pub open spec fn body_plan_view(p: BodyPlan) -> BodyPlanView {
    (
        p.name@,
        p.parent@,
        p.path@,
        match p.joint {
            Some(j) => Some((j.hinge, j.name@, j.class@)),
            None => None,
        },
    )
}

pub open spec fn plans_view(s: Seq<BodyPlan>) -> Seq<BodyPlanView> {
    s.map_values(|p: BodyPlan| body_plan_view(p))
}

pub open spec fn named(el: XmlNode, tag: Seq<char>) -> bool {
    el.name@ == tag
}

/// A `<joint>` child that is not a hinge (an absent type is a hinge).
pub open spec fn is_bad_joint(el: XmlNode) -> bool {
    named(el, "joint"@) && attr_or_value(el.attrs@, "type"@, "hinge"@) != "hinge"@
}

/// An `<inertial>` child that gives neither the six numbers of a full inertia nor the three of a
/// diagonal one.
pub open spec fn is_bad_inertial(el: XmlNode) -> bool {
    &&& named(el, "inertial"@)
    &&& list_tokens(attr_or_value(el.attrs@, "fullinertia"@, ""@)).len() < 6
    &&& list_tokens(attr_or_value(el.attrs@, "diaginertia"@, ""@)).len() < 3
}

/// The first `<joint>` child that is not a hinge.
pub open spec fn first_bad_joint(ch: Seq<XmlNode>) -> Option<int> {
    if exists|i: int| 0 <= i < ch.len() && is_bad_joint(ch[i]) {
        Some(
            choose|i: int|
                0 <= i < ch.len() && is_bad_joint(ch[i]) && forall|j: int|
                    0 <= j < i ==> !is_bad_joint(ch[j]),
        )
    } else {
        None
    }
}

/// The first `<inertial>` child without a usable inertia.
pub open spec fn first_bad_inertial(ch: Seq<XmlNode>) -> Option<int> {
    if exists|i: int| 0 <= i < ch.len() && is_bad_inertial(ch[i]) {
        Some(
            choose|i: int|
                0 <= i < ch.len() && is_bad_inertial(ch[i]) && forall|j: int|
                    0 <= j < i ==> !is_bad_inertial(ch[j]),
        )
    } else {
        None
    }
}

/// The number of children named `tag` below position `n`.
pub open spec fn count_named(ch: Seq<XmlNode>, tag: Seq<char>, n: int) -> nat
    decreases n,
{
    if n <= 0 {
        0
    } else {
        count_named(ch, tag, n - 1) + if named(ch[n - 1], tag) {
            1nat
        } else {
            0nat
        }
    }
}

/// The last child named `tag` below position `n`.
pub open spec fn last_named(ch: Seq<XmlNode>, tag: Seq<char>, n: int) -> Option<int>
    decreases n,
{
    if n <= 0 {
        None
    } else if named(ch[n - 1], tag) {
        Some(n - 1)
    } else {
        last_named(ch, tag, n - 1)
    }
}

pub open spec fn has_named(ch: Seq<XmlNode>, tag: Seq<char>) -> bool {
    exists|i: int| 0 <= i < ch.len() && named(ch[i], tag)
}

/// What a body element alone decides: the error that rejects it, or its own plan entry and the
/// childclass its descendants inherit.
pub open spec fn body_head(b: XmlNode, path: Seq<usize>, parent: Seq<char>, cc: Seq<char>) -> Result<
    (BodyPlanView, Seq<char>),
    Seq<char>,
> {
    let ch = b.children@;
    let name = attr_or_value(b.attrs@, "name"@, ""@);
    let own_cc = attr_or_value(b.attrs@, "childclass"@, ""@);
    let cc2 = if own_cc.len() > 0 {
        own_cc
    } else {
        cc
    };
    let n_hinge = count_named(ch, "joint"@, ch.len() as int);
    let has_free = has_named(ch, "freejoint"@);
    if name.len() == 0 {
        Err("simu.mjcf_convert: anonymous body under "@ + parent)
    } else if first_bad_joint(ch) is Some {
        let el = ch[first_bad_joint(ch)->0];
        Err(
            "simu.mjcf_convert: joint "@ + attr_or_value(el.attrs@, "name"@, "?"@) + " of type "@
                + attr_or_value(el.attrs@, "type"@, "?"@)
                + " unsupported (serial hinge chains only)"@,
        )
    } else if has_free && n_hinge > 0 {
        Err("simu.mjcf_convert: body "@ + name + " mixes freejoint and hinge joints"@)
    } else if !has_free && n_hinge != 1 {
        Err(
            "simu.mjcf_convert: body "@ + name + " has "@ + decimal(n_hinge) + " joints (welded/multi-DOF bodies unsupported)"@,
        )
    } else if first_bad_inertial(ch) is Some {
        Err("simu.mjcf_convert: body "@ + name + " inertial without fullinertia/diaginertia"@)
    } else {
        let joint = if has_free {
            None
        } else {
            let h = last_named(ch, "joint"@, ch.len() as int)->0;
            let hn = attr_or_value(ch[h].attrs@, "name"@, name + "_joint"@);
            let hc = attr_or_value(ch[h].attrs@, "class"@, cc2);
            Some((h as usize, hn, hc))
        };
        Ok(((name, parent, path, joint), cc2))
    }
}

/// The bodies of the subtree of body `b` in the order the URDF lists them: the body, then, child
/// body by child body, their subtrees; or the first error met in that order.
pub open spec fn plan_body(b: XmlNode, path: Seq<usize>, parent: Seq<char>, cc: Seq<char>) -> Result<
    Seq<BodyPlanView>,
    Seq<char>,
>
    decreases b, b.children@.len() + 1,
{
    match body_head(b, path, parent, cc) {
        Err(e) => Err(e),
        Ok((me, cc2)) => match plan_children(b, b.children@.len() as int, path, me.0, cc2) {
            Err(e) => Err(e),
            Ok(rest) => Ok(seq![me] + rest),
        },
    }
}

/// The subtrees of the `<body>` children of `b` below position `upto`, in order.
pub open spec fn plan_children(
    b: XmlNode,
    upto: int,
    path: Seq<usize>,
    parent: Seq<char>,
    cc: Seq<char>,
) -> Result<Seq<BodyPlanView>, Seq<char>>
    decreases b, upto,
{
    if upto <= 0 || upto > b.children@.len() {
        Ok(Seq::empty())
    } else {
        match plan_children(b, upto - 1, path, parent, cc) {
            Err(e) => Err(e),
            Ok(pre) => {
                let c = b.children@[upto - 1];
                if named(c, "body"@) {
                    match plan_body(c, path.push((upto - 1) as usize), parent, cc) {
                        Err(e) => Err(e),
                        Ok(sub) => Ok(pre + sub),
                    }
                } else {
                    Ok(pre)
                }
            },
        }
    }
}

fn find_bad_joint(ch: &Vec<XmlNode>) -> (r: Option<usize>)
    ensures
        r matches Some(k) ==> k < ch@.len() && first_bad_joint(ch@) == Some(k as int),
        r is None ==> first_bad_joint(ch@) is None,
{
    let mut i: usize = 0;
    proof {
        reveal_strlit("joint");
        reveal_strlit("hinge");
    }
    while i < ch.len()
        invariant
            i <= ch@.len(),
            forall|j: int| 0 <= j < i ==> !is_bad_joint(#[trigger] ch@[j]),
        decreases ch@.len() - i,
    {
        let el = &ch[i];
        if str_eq(el.name.as_str(), "joint") && !str_eq(el.attr_or("type", "hinge").as_str(), "hinge") {
            assert(is_bad_joint(ch@[i as int]));
            let ghost c = first_bad_joint(ch@)->0;
            assert(c == i) by {
                if c > i {
                    assert(is_bad_joint(ch@[i as int]));
                }
            }
            return Some(i);
        }
        i = i + 1;
    }
    None
}

fn find_bad_inertial(ch: &Vec<XmlNode>) -> (r: Option<usize>)
    ensures
        r matches Some(k) ==> k < ch@.len() && first_bad_inertial(ch@) == Some(k as int),
        r is None ==> first_bad_inertial(ch@) is None,
{
    let mut i: usize = 0;
    while i < ch.len()
        invariant
            i <= ch@.len(),
            forall|j: int| 0 <= j < i ==> !is_bad_inertial(#[trigger] ch@[j]),
        decreases ch@.len() - i,
    {
        let el = &ch[i];
        if str_eq(el.name.as_str(), "inertial") {
            let fi = float_tokens(el.attr_or("fullinertia", "").as_str());
            let di = float_tokens(el.attr_or("diaginertia", "").as_str());
            assert(fi@.map_values(|t: String| t@).len() == fi@.len());
            assert(di@.map_values(|t: String| t@).len() == di@.len());
            if fi.len() < 6 && di.len() < 3 {
                assert(is_bad_inertial(ch@[i as int]));
                let ghost c = first_bad_inertial(ch@)->0;
                assert(c == i) by {
                    if c > i {
                        assert(is_bad_inertial(ch@[i as int]));
                    }
                }
                return Some(i);
            }
        }
        i = i + 1;
    }
    None
}

/// How many children are named `tag`, whether one is, and the last one that is.
fn scan_named(ch: &Vec<XmlNode>, tag: &str) -> (r: (usize, Option<usize>))
    ensures
        r.0 == count_named(ch@, tag@, ch@.len() as int),
        r.1 matches Some(k) ==> k < ch@.len() && last_named(ch@, tag@, ch@.len() as int) == Some(k as int),
        r.1 is None ==> last_named(ch@, tag@, ch@.len() as int) is None,
        (r.0 > 0) == has_named(ch@, tag@),
        (r.0 > 0) == r.1 is Some,
{
    let mut n: usize = 0;
    let mut last: Option<usize> = None;
    let mut i: usize = 0;
    while i < ch.len()
        invariant
            i <= ch@.len(),
            n == count_named(ch@, tag@, i as int),
            n <= i,
            last matches Some(k) ==> k < i && last_named(ch@, tag@, i as int) == Some(k as int),
            last is None ==> last_named(ch@, tag@, i as int) is None,
            (n > 0) == last is Some,
            (n > 0) == (exists|j: int| 0 <= j < i && named(ch@[j], tag@)),
        decreases ch@.len() - i,
    {
        if str_eq(ch[i].name.as_str(), tag) {
            n = n + 1;
            last = Some(i);
        }
        i = i + 1;
    }
    (n, last)
}

/// The URDF walk over the bodies below the worldbody, or the first error met in that order.
pub open spec fn spec_plan_bodies(root: XmlNode) -> Result<Seq<BodyPlanView>, Seq<char>> {
    match last_named(root.children@, "worldbody"@, root.children@.len() as int) {
        None => Ok(Seq::empty()),
        Some(w) => plan_children(root.children@[w], root.children@[w].children@.len() as int, seq![], "world"@, Seq::empty()),
    }
}

fn plan_body_into(
    b: &XmlNode,
    path: Vec<usize>,
    parent: &str,
    cc: &str,
    out: &mut Vec<BodyPlan>,
) -> (r: Result<(), String>)
    ensures
        match plan_body(*b, path@, parent@, cc@) {
            Ok(s) => r is Ok && plans_view(final(out)@) == plans_view(old(out)@) + s,
            Err(e) => r is Err && r->Err_0@ == e,
        },
    decreases *b, b.children@.len() + 1,
{
    let ch = &b.children;
    let name = b.attr_or("name", "");
    if name.unicode_len() == 0 {
        return Err(cat("simu.mjcf_convert: anonymous body under ", parent));
    }
    let own_cc = b.attr_or("childclass", "");
    let cc2 = if own_cc.unicode_len() > 0 {
        own_cc
    } else {
        String::from_str(cc)
    };
    match find_bad_joint(ch) {
        Some(k) => {
            let el = &ch[k];
            let m = cat(
                cat(
                    cat(cat("simu.mjcf_convert: joint ", el.attr_or("name", "?").as_str()).as_str(), " of type ").as_str(),
                    el.attr_or("type", "?").as_str(),
                ).as_str(),
                " unsupported (serial hinge chains only)",
            );
            return Err(m);
        },
        None => {},
    }
    let (n_hinge, last_hinge) = scan_named(ch, "joint");
    let (n_free, _) = scan_named(ch, "freejoint");
    let has_free = n_free > 0;
    if has_free && n_hinge > 0 {
        return Err(cat(cat("simu.mjcf_convert: body ", name.as_str()).as_str(), " mixes freejoint and hinge joints"));
    }
    if !has_free && n_hinge != 1 {
        let mut m = cat(cat("simu.mjcf_convert: body ", name.as_str()).as_str(), " has ");
        push_decimal(&mut m, n_hinge as u64);
        m.append(" joints (welded/multi-DOF bodies unsupported)");
        return Err(m);
    }
    if find_bad_inertial(ch).is_some() {
        return Err(cat(cat("simu.mjcf_convert: body ", name.as_str()).as_str(), " inertial without fullinertia/diaginertia"));
    }
    let joint = if has_free {
        None
    } else {
        let h = match last_hinge {
            Some(h) => h,
            None => {
                assert(false);
                0
            },
        };
        let dflt = cat(name.as_str(), "_joint");
        Some(JointPlan { hinge: h, name: ch[h].attr_or("name", dflt.as_str()), class: ch[h].attr_or("class", cc2.as_str()) })
    };
    let plan = BodyPlan { name: name.clone(), parent: String::from_str(parent), path: path.clone(), joint };
    let ghost me = body_plan_view(plan);
    let ghost head = body_head(*b, path@, parent@, cc@);
    assert(head == Ok::<(BodyPlanView, Seq<char>), Seq<char>>((me, cc2@)));
    let ghost start = plans_view(out@);
    out.push(plan);
    assert(plans_view(out@) =~= start.push(me));
    let mut i: usize = 0;
    assert(plans_view(out@) =~= start + seq![me] + Seq::<BodyPlanView>::empty());
    while i < ch.len()
        invariant
            i <= ch@.len(),
            ch == b.children,
            body_head(*b, path@, parent@, cc@) == Ok::<(BodyPlanView, Seq<char>), Seq<char>>((me, cc2@)),
            me.0 == name@,
            plan_children(*b, i as int, path@, name@, cc2@) matches Ok(pre) && plans_view(out@)
                == start + seq![me] + pre,
        decreases ch@.len() - i,
    {
        let ghost pre = plan_children(*b, i as int, path@, name@, cc2@)->Ok_0;
        if str_eq(ch[i].name.as_str(), "body") {
            let mut p2 = path.clone();
            p2.push(i);
            assert(p2@ =~= path@.push(i));
            let r = plan_body_into(&ch[i], p2, name.as_str(), cc2.as_str(), out);
            match r {
                Err(e) => {
                    proof {
                        lemma_children_err_prefix(*b, i as int + 1, path@, name@, cc2@);
                    }
                    return Err(e);
                },
                Ok(()) => {
                    assert(start + seq![me] + pre + plan_body(ch@[i as int], path@.push(i), name@, cc2@)->Ok_0 =~= start + seq![me] + (pre + plan_body(ch@[i as int], path@.push(i), name@, cc2@)->Ok_0));
                },
            }
        }
        i = i + 1;
    }
    Ok(())
}

/// The bodies of a walk below the `<body>` path `path0`, whose enclosing link is `parent0`: each
/// sits deeper than `path0` and inside it; one directly below hangs from `parent0`, a deeper one
/// from a body listed before it whose path is its own without the last step.
pub open spec fn hangs_below(s: Seq<BodyPlanView>, path0: Seq<usize>, parent0: Seq<char>) -> bool {
    forall|i: int|
        0 <= i < s.len() ==> {
            &&& (#[trigger] s[i]).2.len() > path0.len()
            &&& s[i].2.take(path0.len() as int) == path0
            &&& s[i].2.len() == path0.len() + 1 ==> s[i].1 == parent0
            &&& s[i].2.len() > path0.len() + 1 ==> exists|j: int|
                0 <= j < i && s[j].2 == s[i].2.drop_last() && s[i].1 == s[j].0
        }
}

proof fn lemma_hangs_concat(pre: Seq<BodyPlanView>, sub: Seq<BodyPlanView>, path0: Seq<usize>, parent0: Seq<char>)
    requires
        hangs_below(pre, path0, parent0),
        hangs_below(sub, path0, parent0),
    ensures
        hangs_below(pre + sub, path0, parent0),
{
    let s = pre + sub;
    assert forall|i: int| 0 <= i < s.len() implies {
        &&& (#[trigger] s[i]).2.len() > path0.len()
        &&& s[i].2.take(path0.len() as int) == path0
        &&& s[i].2.len() == path0.len() + 1 ==> s[i].1 == parent0
        &&& s[i].2.len() > path0.len() + 1 ==> exists|j: int|
            0 <= j < i && s[j].2 == s[i].2.drop_last() && s[i].1 == s[j].0
    } by {
        if i < pre.len() {
            assert(s[i] == pre[i]);
            if s[i].2.len() > path0.len() + 1 {
                let j = choose|j: int| 0 <= j < i && pre[j].2 == pre[i].2.drop_last() && pre[i].1 == pre[j].0;
                assert(s[j] == pre[j]);
            }
        } else {
            let k = i - pre.len();
            assert(s[i] == sub[k]);
            if s[i].2.len() > path0.len() + 1 {
                let j = choose|j: int| 0 <= j < k && sub[j].2 == sub[k].2.drop_last() && sub[k].1 == sub[j].0;
                assert(s[j + pre.len()] == sub[j]);
            }
        }
    }
}

proof fn lemma_plan_body_hangs(b: XmlNode, path: Seq<usize>, parent: Seq<char>, cc: Seq<char>)
    requires
        path.len() >= 1,
    ensures
        plan_body(b, path, parent, cc) matches Ok(s) ==> hangs_below(s, path.drop_last(), parent),
    decreases b, b.children@.len() + 1,
{
    match body_head(b, path, parent, cc) {
        Err(_) => {},
        Ok((me, cc2)) => {
            lemma_plan_children_hangs(b, b.children@.len() as int, path, me.0, cc2);
            match plan_children(b, b.children@.len() as int, path, me.0, cc2) {
                Err(_) => {},
                Ok(rest) => {
                    let s = seq![me] + rest;
                    let p0 = path.drop_last();
                    assert(me.2 == path && me.1 == parent);
                    assert(path.take(p0.len() as int) =~= p0);
                    assert forall|i: int| 0 <= i < s.len() implies {
                        &&& (#[trigger] s[i]).2.len() > p0.len()
                        &&& s[i].2.take(p0.len() as int) == p0
                        &&& s[i].2.len() == p0.len() + 1 ==> s[i].1 == parent
                        &&& s[i].2.len() > p0.len() + 1 ==> exists|j: int|
                            0 <= j < i && s[j].2 == s[i].2.drop_last() && s[i].1 == s[j].0
                    } by {
                        if i == 0 {
                            assert(s[0] == me);
                        } else {
                            let r = rest[i - 1];
                            assert(s[i] == r);
                            assert(r.2.take(path.len() as int) == path);
                            assert(r.2.take(p0.len() as int) =~= r.2.take(path.len() as int).take(p0.len() as int));
                            if r.2.len() == path.len() + 1 {
                                assert(r.2.drop_last() =~= r.2.take(path.len() as int));
                                assert(s[0].2 == r.2.drop_last());
                            } else {
                                let j = choose|j: int| 0 <= j < i - 1 && rest[j].2 == r.2.drop_last() && r.1 == rest[j].0;
                                assert(s[j + 1] == rest[j]);
                            }
                        }
                    }
                },
            }
        },
    }
}

proof fn lemma_plan_children_hangs(b: XmlNode, upto: int, path: Seq<usize>, parent: Seq<char>, cc: Seq<char>)
    ensures
        plan_children(b, upto, path, parent, cc) matches Ok(s) ==> hangs_below(s, path, parent),
    decreases b, upto,
{
    if 0 < upto <= b.children@.len() {
        lemma_plan_children_hangs(b, upto - 1, path, parent, cc);
        match plan_children(b, upto - 1, path, parent, cc) {
            Err(_) => {},
            Ok(pre) => {
                let c = b.children@[upto - 1];
                if named(c, "body"@) {
                    let p2 = path.push((upto - 1) as usize);
                    lemma_plan_body_hangs(c, p2, parent, cc);
                    assert(p2.drop_last() =~= path);
                    match plan_body(c, p2, parent, cc) {
                        Err(_) => {},
                        Ok(sub) => {
                            lemma_hangs_concat(pre, sub, path, parent);
                        },
                    }
                }
            },
        }
    }
}

/// Every link of the walk comes after the link it hangs from: a body directly in the worldbody
/// hangs from "world", any other from the body whose `<body>` element encloses it, which the walk
/// lists before it.
pub proof fn law_links_follow_their_parents(root: XmlNode)
    ensures
        spec_plan_bodies(root) matches Ok(s) ==> forall|i: int|
            0 <= i < s.len() ==> {
                ||| (#[trigger] s[i]).2.len() == 1 && s[i].1 == "world"@
                ||| s[i].2.len() > 1 && exists|j: int|
                    0 <= j < i && s[j].2 == s[i].2.drop_last() && s[i].1 == s[j].0
            },
{
    match last_named(root.children@, "worldbody"@, root.children@.len() as int) {
        None => {},
        Some(w) => {
            let wb = root.children@[w];
            lemma_plan_children_hangs(wb, wb.children@.len() as int, seq![], "world"@, Seq::empty());
            match spec_plan_bodies(root) {
                Err(_) => {},
                Ok(s) => {
                    assert forall|i: int| 0 <= i < s.len() implies {
                        ||| (#[trigger] s[i]).2.len() == 1 && s[i].1 == "world"@
                        ||| s[i].2.len() > 1 && exists|j: int|
                            0 <= j < i && s[j].2 == s[i].2.drop_last() && s[i].1 == s[j].0
                    } by {
                        assert(s[i].2.len() > 0);
                    }
                },
            }
        },
    }
}

/// What rejects a body element by itself: it has no name, a `<joint>` that is not a hinge, a
/// freejoint beside hinge joints, not exactly one hinge joint without a freejoint, or an
/// `<inertial>` with neither a full nor a diagonal inertia.
pub open spec fn body_rejected(b: XmlNode) -> bool {
    let ch = b.children@;
    let n_hinge = count_named(ch, "joint"@, ch.len() as int);
    let has_free = has_named(ch, "freejoint"@);
    ||| attr_or_value(b.attrs@, "name"@, ""@).len() == 0
    ||| first_bad_joint(ch) is Some
    ||| has_free && n_hinge > 0
    ||| !has_free && n_hinge != 1
    ||| first_bad_inertial(ch) is Some
}

/// The childclass a body hands to its children: its own, else the one it inherited.
pub open spec fn child_class(b: XmlNode, cc: Seq<char>) -> Seq<char> {
    let own = attr_or_value(b.attrs@, "childclass"@, ""@);
    if own.len() > 0 {
        own
    } else {
        cc
    }
}

/// The element reached from `el` through the child positions `path`, every step landing on a
/// `<body>` element; none when a step leaves the children or lands on another element.
pub open spec fn body_at(el: XmlNode, path: Seq<int>) -> Option<XmlNode>
    decreases path.len(),
{
    if path.len() == 0 {
        Some(el)
    } else {
        let i = path[0];
        if 0 <= i < el.children@.len() && named(el.children@[i], "body"@) {
            body_at(el.children@[i], path.drop_first())
        } else {
            None
        }
    }
}

proof fn lemma_children_err_iff(b: XmlNode, upto: int, path: Seq<usize>, parent: Seq<char>, cc: Seq<char>)
    requires
        0 <= upto <= b.children@.len(),
    ensures
        plan_children(b, upto, path, parent, cc) is Err <==> exists|i: int|
            0 <= i < upto && named(b.children@[i], "body"@) && (#[trigger] plan_body(
                b.children@[i],
                path.push(i as usize),
                parent,
                cc,
            )) is Err,
    decreases upto,
{
    if upto > 0 {
        lemma_children_err_iff(b, upto - 1, path, parent, cc);
        let c = b.children@[upto - 1];
        if plan_children(b, upto - 1, path, parent, cc) is Ok && named(c, "body"@) && plan_body(
            c,
            path.push((upto - 1) as usize),
            parent,
            cc,
        ) is Err {
            assert(named(b.children@[upto - 1], "body"@) && plan_body(
                b.children@[upto - 1],
                path.push((upto - 1) as usize),
                parent,
                cc,
            ) is Err);
        }
    }
}

/// The body walk rejects a body exactly when the body itself is rejected or the walk below one of
/// its `<body>` children is; a body without a name is rejected with the name of the link it hangs
/// from.
pub proof fn law_body_walk_rejections(b: XmlNode, path: Seq<usize>, parent: Seq<char>, cc: Seq<char>)
    ensures
        plan_body(b, path, parent, cc) is Err <==> body_rejected(b) || exists|i: int|
            0 <= i < b.children@.len() && named(b.children@[i], "body"@) && (#[trigger] plan_body(
                b.children@[i],
                path.push(i as usize),
                attr_or_value(b.attrs@, "name"@, ""@),
                child_class(b, cc),
            )) is Err,
        attr_or_value(b.attrs@, "name"@, ""@).len() == 0 ==> plan_body(b, path, parent, cc) == Err::<
            Seq<BodyPlanView>,
            Seq<char>,
        >("simu.mjcf_convert: anonymous body under "@ + parent),
{
    lemma_children_err_iff(
        b,
        b.children@.len() as int,
        path,
        attr_or_value(b.attrs@, "name"@, ""@),
        child_class(b, cc),
    );
}

proof fn lemma_plan_body_err_iff(b: XmlNode, path: Seq<usize>, parent: Seq<char>, cc: Seq<char>)
    ensures
        plan_body(b, path, parent, cc) is Err <==> exists|q: Seq<int>|
            #[trigger] body_at(b, q) is Some && body_rejected(body_at(b, q)->0),
    decreases b,
{
    let name = attr_or_value(b.attrs@, "name"@, ""@);
    let cc2 = child_class(b, cc);
    law_body_walk_rejections(b, path, parent, cc);
    assert(body_at(b, seq![]) == Some(b));
    if plan_body(b, path, parent, cc) is Err && !body_rejected(b) {
        let i = choose|i: int|
            0 <= i < b.children@.len() && named(b.children@[i], "body"@) && (#[trigger] plan_body(
                b.children@[i],
                path.push(i as usize),
                name,
                cc2,
            )) is Err;
        let c = b.children@[i];
        lemma_plan_body_err_iff(c, path.push(i as usize), name, cc2);
        let q2 = choose|q: Seq<int>| #[trigger] body_at(c, q) is Some && body_rejected(body_at(c, q)->0);
        let q = seq![i] + q2;
        assert(q.drop_first() =~= q2);
        assert(body_at(b, q) == body_at(c, q2));
    }
    if !body_rejected(b) && exists|q: Seq<int>| #[trigger] body_at(b, q) is Some && body_rejected(body_at(b, q)->0) {
        let q = choose|q: Seq<int>| #[trigger] body_at(b, q) is Some && body_rejected(body_at(b, q)->0);
        assert(q.len() > 0);
        let i = q[0];
        let c = b.children@[i];
        let q2 = q.drop_first();
        assert(body_at(b, q) == body_at(c, q2));
        lemma_plan_body_err_iff(c, path.push(i as usize), name, cc2);
        assert(plan_body(c, path.push(i as usize), name, cc2) is Err);
    }
}

/// The walk of a document is rejected exactly when some body below its (last) worldbody, reached
/// through `<body>` elements, is rejected by itself.
pub proof fn law_walk_rejected_iff_some_body_is(root: XmlNode)
    ensures
        spec_plan_bodies(root) is Err <==> (last_named(root.children@, "worldbody"@, root.children@.len() as int) matches Some(
            w,
        ) && exists|q: Seq<int>|
            q.len() >= 1 && #[trigger] body_at(root.children@[w], q) is Some && body_rejected(
                body_at(root.children@[w], q)->0,
            )),
{
    match last_named(root.children@, "worldbody"@, root.children@.len() as int) {
        None => {},
        Some(w) => {
            let wb = root.children@[w];
            let e: Seq<char> = Seq::empty();
            lemma_children_err_iff(wb, wb.children@.len() as int, seq![], "world"@, e);
            if spec_plan_bodies(root) is Err {
                let i = choose|i: int|
                    0 <= i < wb.children@.len() && named(wb.children@[i], "body"@) && (#[trigger] plan_body(
                        wb.children@[i],
                        seq![].push(i as usize),
                        "world"@,
                        e,
                    )) is Err;
                let c = wb.children@[i];
                lemma_plan_body_err_iff(c, seq![].push(i as usize), "world"@, e);
                let q2 = choose|q: Seq<int>| #[trigger] body_at(c, q) is Some && body_rejected(body_at(c, q)->0);
                let q = seq![i] + q2;
                assert(q.drop_first() =~= q2);
                assert(body_at(wb, q) == body_at(c, q2));
            }
            if exists|q: Seq<int>|
                q.len() >= 1 && #[trigger] body_at(wb, q) is Some && body_rejected(body_at(wb, q)->0) {
                let q = choose|q: Seq<int>|
                    q.len() >= 1 && #[trigger] body_at(wb, q) is Some && body_rejected(body_at(wb, q)->0);
                let i = q[0];
                let c = wb.children@[i];
                let q2 = q.drop_first();
                assert(body_at(wb, q) == body_at(c, q2));
                lemma_plan_body_err_iff(c, seq![].push(i as usize), "world"@, e);
                assert(plan_body(c, seq![].push(i as usize), "world"@, e) is Err);
            }
        },
    }
}

/// An error in the walk of the first children is the error of the walk of all of them.
proof fn lemma_children_err_prefix(b: XmlNode, i: int, path: Seq<usize>, parent: Seq<char>, cc: Seq<char>)
    requires
        0 <= i <= b.children@.len(),
        plan_children(b, i, path, parent, cc) is Err,
    ensures
        plan_children(b, b.children@.len() as int, path, parent, cc) == plan_children(b, i, path, parent, cc),
    decreases b.children@.len() - i,
{
    if i < b.children@.len() {
        lemma_children_err_prefix(b, i + 1, path, parent, cc);
    }
}

/// The URDF walk over the bodies of an MJCF document (the last `<worldbody>`): for every body the
/// link it becomes and the revolute joint it hangs from, in the order the URDF lists them, or the
/// error that rejects the model.
pub fn plan_bodies(root: &XmlNode) -> (r: Result<Vec<BodyPlan>, String>)
    ensures
        match spec_plan_bodies(*root) {
            Ok(s) => r is Ok && plans_view(r->Ok_0@) == s,
            Err(e) => r is Err && r->Err_0@ == e,
        },
{
    let mut out: Vec<BodyPlan> = Vec::new();
    let (_, w) = scan_named(&root.children, "worldbody");
    let w = match w {
        None => {
            assert(plans_view(out@) =~= Seq::<BodyPlanView>::empty());
            return Ok(out);
        },
        Some(w) => w,
    };
    proof {
        lemma_last_named_bounds(root.children@, "worldbody"@, root.children@.len() as int);
    }
    let wb = &root.children[w];
    let ch = &wb.children;
    let mut i: usize = 0;
    assert(plans_view(out@) =~= Seq::<BodyPlanView>::empty());
    while i < ch.len()
        invariant
            i <= ch@.len(),
            ch == wb.children,
            last_named(root.children@, "worldbody"@, root.children@.len() as int) == Some(w as int),
            w < root.children@.len(),
            root.children@[w as int] == *wb,
            plan_children(*wb, i as int, seq![], "world"@, Seq::empty()) matches Ok(pre) && plans_view(out@) == pre,
        decreases ch@.len() - i,
    {
        let ghost pre = plan_children(*wb, i as int, seq![], "world"@, Seq::empty())->Ok_0;
        if str_eq(ch[i].name.as_str(), "body") {
            let mut p = Vec::new();
            p.push(i);
            assert(p@ =~= Seq::<usize>::empty().push(i));
            let empty = String::new();
            let r = plan_body_into(&ch[i], p, "world", empty.as_str(), &mut out);
            match r {
                Err(e) => {
                    proof {
                        lemma_children_err_prefix(*wb, i as int + 1, seq![], "world"@, Seq::empty());
                    }
                    return Err(e);
                },
                Ok(()) => {},
            }
        }
        i = i + 1;
    }
    Ok(out)
}

proof fn lemma_last_named_bounds(ch: Seq<XmlNode>, tag: Seq<char>, n: int)
    requires
        n <= ch.len(),
    ensures
        last_named(ch, tag, n) matches Some(k) ==> 0 <= k < n && ch[k].name@ == tag && forall|j: int|
            k < j < n ==> ch[j].name@ != tag,
        last_named(ch, tag, n) is None ==> forall|j: int| 0 <= j < n ==> ch[j].name@ != tag,
    decreases n,
{
    if n > 0 {
        lemma_last_named_bounds(ch, tag, n - 1);
    }
}

/// The joint a planned body hangs from is the body's last `<joint>` element; it is named by its
/// `name` attribute, else by the body's name with "_joint"; and its default class is its own
/// `class` attribute, else the body's own `childclass` when the body sets one, else the childclass
/// inherited from the enclosing bodies. A body plans no joint exactly when it has a `<freejoint>`.
pub proof fn law_planned_joint(b: XmlNode, path: Seq<usize>, parent: Seq<char>, cc: Seq<char>)
    ensures
        plan_body(b, path, parent, cc) matches Ok(s) ==> {
            let ch = b.children@;
            let name = attr_or_value(b.attrs@, "name"@, ""@);
            let own = attr_or_value(b.attrs@, "childclass"@, ""@);
            &&& s.len() >= 1
            &&& s[0].0 == name
            &&& s[0].1 == parent
            &&& s[0].2 == path
            &&& (s[0].3 is None <==> exists|i: int| 0 <= i < ch.len() && ch[i].name@ == "freejoint"@)
            &&& s[0].3 matches Some(j) ==> {
                &&& 0 <= j.0 < ch.len()
                &&& ch[j.0 as int].name@ == "joint"@
                &&& forall|k: int| j.0 < k < ch.len() ==> ch[k].name@ != "joint"@
                &&& j.1 == match attr_value(ch[j.0 as int].attrs@, "name"@) {
                    Some(v) => v,
                    None => name + "_joint"@,
                }
                &&& j.2 == match attr_value(ch[j.0 as int].attrs@, "class"@) {
                    Some(c) => c,
                    None => if own.len() > 0 {
                        own
                    } else {
                        cc
                    },
                }
            }
        },
{
    let ch = b.children@;
    lemma_last_named_bounds(ch, "joint"@, ch.len() as int);
    if let Ok(s) = plan_body(b, path, parent, cc) {
        let (me, cc2) = body_head(b, path, parent, cc)->Ok_0;
        assert(s[0] == me);
        let has_free = has_named(ch, "freejoint"@);
        assert(has_free <==> exists|i: int| 0 <= i < ch.len() && ch[i].name@ == "freejoint"@) by {
            if has_free {
                let i = choose|i: int| 0 <= i < ch.len() && named(ch[i], "freejoint"@);
                assert(ch[i].name@ == "freejoint"@);
            }
            if exists|i: int| 0 <= i < ch.len() && ch[i].name@ == "freejoint"@ {
                let i = choose|i: int| 0 <= i < ch.len() && ch[i].name@ == "freejoint"@;
                assert(named(ch[i], "freejoint"@));
            }
        }
        let name = attr_or_value(b.attrs@, "name"@, ""@);
        let own = attr_or_value(b.attrs@, "childclass"@, ""@);
        assert(s.len() >= 1);
        assert(s[0].0 == name);
        assert(s[0].1 == parent);
        assert(s[0].2 == path);
        assert(s[0].3 is None <==> has_free);
        if !has_free {
            assert(count_named(ch, "joint"@, ch.len() as int) == 1);
            assert(last_named(ch, "joint"@, ch.len() as int) is Some) by {
                lemma_count_last(ch, "joint"@, ch.len() as int);
            }
            let j = s[0].3->0;
            let h = last_named(ch, "joint"@, ch.len() as int)->0;
            assert(0 <= h < ch.len());
            assert(ch.len() == b.children.len());
            assert(j.0 == h as usize);
            assert(j.0 as int == h);
            assert(0 <= j.0 < ch.len());
            assert(ch[j.0 as int].name@ == "joint"@);
            assert(cc2 == (if own.len() > 0 { own } else { cc }));
        }
    }
}

proof fn lemma_count_last(ch: Seq<XmlNode>, tag: Seq<char>, n: int)
    requires
        0 <= n <= ch.len(),
    ensures
        count_named(ch, tag, n) > 0 <==> last_named(ch, tag, n) is Some,
    decreases n,
{
    if n > 0 {
        lemma_count_last(ch, tag, n - 1);
    }
}

} // verus!

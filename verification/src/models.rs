//! Where this crate's model data lives: the URDF/MJCF sources and the meshes they reference, under
//! `models/` in the crate's own directory. Each path is built from that directory, which the caller
//! passes in (it is the compile-time CARGO_MANIFEST_DIR of the crate), so the paths hold wherever
//! the crate is built from.
use crate::text::push_char;
use vstd::prelude::*;

verus! {

/// `part` adjoined to `base` as a path component: one '/' between them, none added when `base` is
/// empty or already ends in '/'.
pub open spec fn path_join(base: Seq<char>, part: Seq<char>) -> Seq<char> {
    if base.len() == 0 || base.last() == '/' {
        base + part
    } else {
        base + seq!['/'] + part
    }
}

/// `part` adjoined to `base` as a path component.
pub fn join(base: &str, part: &str) -> (r: String)
    ensures
        r@ == path_join(base@, part@),
{
    let mut r = String::from_str(base);
    let n = base.unicode_len();
    if n > 0 && base.get_char(n - 1) != '/' {
        push_char(&mut r, '/');
    }
    r.append(part);
    r
}

pub open spec fn spec_root(crate_dir: Seq<char>) -> Seq<char> {
    path_join(crate_dir, "models"@)
}

pub open spec fn spec_g1_dir(crate_dir: Seq<char>) -> Seq<char> {
    path_join(spec_root(crate_dir), "unitree_g1"@)
}

/// The one path the rest of this file hangs off: the URDF/MJCF sources and the meshes beside the
/// crate.
pub fn root(crate_dir: &str) -> (r: String)
    ensures
        r@ == spec_root(crate_dir@),
{
    join(crate_dir, "models")
}

/// The Z1 arm's URDF.
pub fn z1_urdf(crate_dir: &str) -> (r: String)
    ensures
        r@ == path_join(path_join(spec_root(crate_dir@), "z1"@), "z1.urdf"@),
{
    let d = join(root(crate_dir).as_str(), "z1");
    join(d.as_str(), "z1.urdf")
}

/// The G1 humanoid's directory.
pub fn g1_dir(crate_dir: &str) -> (r: String)
    ensures
        r@ == spec_g1_dir(crate_dir@),
{
    join(root(crate_dir).as_str(), "unitree_g1")
}

/// The robot MJCF the converter reads, named as the first of the two documents it takes: the scene
/// beside it carries the keyframes, and the merge happens inside the conversion.
pub fn g1_robot(crate_dir: &str) -> (r: String)
    ensures
        r@ == path_join(path_join(spec_g1_dir(crate_dir@), "src"@), "g1.xml"@),
{
    let d = join(g1_dir(crate_dir).as_str(), "src");
    join(d.as_str(), "g1.xml")
}

/// The scene MJCF: it carries the keyframes the converter merges over the robot's.
pub fn g1_scene(crate_dir: &str) -> (r: String)
    ensures
        r@ == path_join(path_join(spec_g1_dir(crate_dir@), "src"@), "scene.xml"@),
{
    let d = join(g1_dir(crate_dir).as_str(), "src");
    join(d.as_str(), "scene.xml")
}

/// The committed URDF artifact of the G1, regenerated by the converter rather than edited.
pub fn g1_urdf(crate_dir: &str) -> (r: String)
    ensures
        r@ == path_join(spec_g1_dir(crate_dir@), "unitree_g1.urdf"@),
{
    join(g1_dir(crate_dir).as_str(), "unitree_g1.urdf")
}

/// The committed sidecar of the G1 (joint extras, sites, keyframes).
pub fn g1_meta(crate_dir: &str) -> (r: String)
    ensures
        r@ == path_join(spec_g1_dir(crate_dir@), "unitree_g1_meta.json"@),
{
    join(g1_dir(crate_dir).as_str(), "unitree_g1_meta.json")
}

/// The wall mesh.
pub fn wall(crate_dir: &str) -> (r: String)
    ensures
        r@ == path_join(spec_root(crate_dir@), "wall.stl"@),
{
    join(root(crate_dir).as_str(), "wall.stl")
}

} // verus!

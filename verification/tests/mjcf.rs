use control_model::mjcf_convert::{
    robot_name, worldbody_index, actuator_rows, asset_file, compiler_settings, float_tokens, keyframe_rows, plan_bodies, read_assets, BodyPlan,
};
use control_model::mjcf_defaults::{
    default_classes, find_class, geom_contact, geom_type, joint_dynamics, read_defaults_into,
};
use control_model::mjcf_model::{joint_rows, MjcfJointExtra, MjcfModel, MjcfSite};
use control_model::xml::parse_document;

type Model = MjcfModel<f64, [f64; 3], [f64; 4]>;

fn extra(name: &str, armature: f64) -> MjcfJointExtra<f64> {
    MjcfJointExtra {
        name: name.to_string(),
        damping: 1.0,
        friction: 0.5,
        armature,
        effort_lo: -10.0,
        effort_hi: 10.0,
    }
}

fn model() -> Model {
    MjcfModel {
        urdf: "<robot/>".to_string(),
        joints: vec![extra("a", 0.1), extra("b", 0.2)],
        sites: vec![MjcfSite { name: "sole".into(), body: "foot".into(), pos: [1.0, 2.0, 3.0], quat: [1.0, 0.0, 0.0, 0.0] }],
        kf_names: vec!["home".into(), "short".into()],
        kf_qpos: vec![vec![0.0, 0.0, 0.8, 1.0, 0.0, 0.0, 0.0, 0.3, 0.4], vec![1.0, 2.0]],
    }
}

#[test]
fn float_tokens_split_on_blanks_and_trim() {
    assert_eq!(float_tokens("  1 2\t3\n 4  "), vec!["1", "2", "3", "4"]);
    assert_eq!(float_tokens(" \u{a0}5\u{a0} "), vec!["5"]);
    assert_eq!(float_tokens("1\r2"), vec!["1\r2"]);
    assert!(float_tokens("").is_empty());
    assert!(float_tokens(" \t\n ").is_empty());
}

#[test]
fn mesh_assets_map_names_to_files() {
    let doc = parse_document(
        "<mujoco><asset><mesh name=\"a\" file=\"a.stl\"/><mesh file=\"dir/b.part.STL\"/><mesh name=\"c\"/>\
         <texture name=\"t\" file=\"t.png\"/></asset><asset><mesh name=\"a\" file=\"a2.stl\"/></asset></mujoco>",
    )
    .unwrap();
    let assets = read_assets(&doc);
    let pairs: Vec<(&str, &str)> = assets.iter().map(|(n, f)| (n.as_str(), f.as_str())).collect();
    assert_eq!(pairs, vec![("a", "a.stl"), ("b.part", "dir/b.part.STL"), ("a", "a2.stl")]);
    assert_eq!(asset_file(&assets, "a"), "a2.stl");
    assert_eq!(asset_file(&assets, "b.part"), "dir/b.part.STL");
    assert_eq!(asset_file(&assets, "zz"), "zz");
}

#[test]
fn keyframe_rows_keep_document_order() {
    let doc = parse_document(
        "<mujoco><keyframe><key name=\"home\" qpos=\"0 0 0.8 1 0 0 0 0.1\"/><key qpos=\"1\"/><other/></keyframe>\
         <keyframe><key name=\"z\"/></keyframe></mujoco>",
    )
    .unwrap();
    let rows = keyframe_rows(&doc);
    let v: Vec<(&str, &str)> = rows.iter().map(|(n, q)| (n.as_str(), q.as_str())).collect();
    assert_eq!(v, vec![("home", "0 0 0.8 1 0 0 0 0.1"), ("", "1"), ("z", "")]);
}

fn plan(body: &str) -> Result<Vec<BodyPlan>, String> {
    let doc = parse_document(&format!("<mujoco model=\"m\"><worldbody>{body}</worldbody></mujoco>")).unwrap();
    plan_bodies(&doc)
}

#[test]
fn the_body_walk_lists_links_in_urdf_order() {
    let p = plan(
        "<body name=\"pelvis\" childclass=\"g1\"><freejoint/><inertial mass=\"1\" diaginertia=\"1 1 1\"/>\
         <body name=\"hip\"><joint name=\"hip_j\" axis=\"0 1 0\"/><inertial mass=\"1\" fullinertia=\"1 1 1 0 0 0\"/>\
         <body name=\"knee\"><joint class=\"knee_cls\"/></body></body>\
         <body name=\"waist\"><joint name=\"w\"/></body></body>",
    )
    .unwrap();
    let names: Vec<&str> = p.iter().map(|b| b.name.as_str()).collect();
    assert_eq!(names, vec!["pelvis", "hip", "knee", "waist"]);
    let parents: Vec<&str> = p.iter().map(|b| b.parent.as_str()).collect();
    assert_eq!(parents, vec!["world", "pelvis", "hip", "pelvis"]);
    assert_eq!(p[0].path, vec![0]);
    assert_eq!(p[1].path, vec![0, 2]);
    assert_eq!(p[2].path, vec![0, 2, 2]);
    assert_eq!(p[3].path, vec![0, 3]);
    assert!(p[0].joint.is_none());
    let j = p[1].joint.as_ref().unwrap();
    assert_eq!((j.hinge, j.name.as_str(), j.class.as_str()), (0, "hip_j", "g1"));
    let j = p[2].joint.as_ref().unwrap();
    assert_eq!((j.name.as_str(), j.class.as_str()), ("knee_joint", "knee_cls"));
    let j = p[3].joint.as_ref().unwrap();
    assert_eq!((j.name.as_str(), j.class.as_str()), ("w", "g1"));
}

#[test]
fn a_document_without_bodies_plans_nothing() {
    let doc = parse_document("<mujoco/>").unwrap();
    assert!(plan_bodies(&doc).unwrap().is_empty());
    assert!(plan("<geom/>").unwrap().is_empty());
}

#[test]
fn the_body_walk_rejects_what_a_hinge_chain_cannot_carry() {
    assert_eq!(
        plan("<body name=\"p\"><freejoint/><body><joint/></body></body>").err().unwrap(),
        "simu.mjcf_convert: anonymous body under p"
    );
    assert_eq!(
        plan("<body name=\"p\"><joint name=\"s\" type=\"slide\"/></body>").err().unwrap(),
        "simu.mjcf_convert: joint s of type slide unsupported (serial hinge chains only)"
    );
    assert_eq!(
        plan("<body name=\"p\"><joint/><joint/></body>").err().unwrap(),
        "simu.mjcf_convert: body p has 2 joints (welded/multi-DOF bodies unsupported)"
    );
    assert_eq!(
        plan("<body name=\"p\"/>").err().unwrap(),
        "simu.mjcf_convert: body p has 0 joints (welded/multi-DOF bodies unsupported)"
    );
    assert_eq!(
        plan("<body name=\"p\"><freejoint/><joint/></body>").err().unwrap(),
        "simu.mjcf_convert: body p mixes freejoint and hinge joints"
    );
    assert_eq!(
        plan("<body name=\"p\"><freejoint/><inertial diaginertia=\"1 1\"/></body>").err().unwrap(),
        "simu.mjcf_convert: body p inertial without fullinertia/diaginertia"
    );
    // the first error in walk order wins
    assert_eq!(
        plan("<body name=\"a\"><joint/><body name=\"b\"/></body><body/>").err().unwrap(),
        "simu.mjcf_convert: body b has 0 joints (welded/multi-DOF bodies unsupported)"
    );
}

#[test]
fn keyframes_map_into_any_q_order_by_joint_name() {
    let m = model();
    let q = m.keyframe_q("home", &vec!["b".to_string(), "a".to_string(), "c".to_string()], 0.0);
    assert_eq!(q, vec![0.4, 0.3, 0.0]);
    assert!(m.keyframe_q("short", &vec!["a".to_string()], 0.0).is_empty());
    assert!(m.keyframe_q("absent", &vec!["a".to_string()], 0.0).is_empty());
    let rest = vec![0.0, 0.0, 0.0, 1.0, 0.0, 0.0, 0.0];
    assert_eq!(m.keyframe_base("home", &rest), vec![0.0, 0.0, 0.8, 1.0, 0.0, 0.0, 0.0]);
    assert_eq!(m.keyframe_base("short", &rest), rest);
    assert_eq!(m.keyframe_base("absent", &rest), rest);
    assert_eq!(m.kf_index("short"), Some(1));
    assert_eq!(m.kf_index("absent"), None);
}

#[test]
fn joint_and_site_lookups_fall_back_to_zero_rows() {
    let m = model();
    let b = m.joint_extra("b", 0.0);
    assert_eq!((b.name.as_str(), b.armature, b.effort_hi), ("b", 0.2, 10.0));
    let z = m.joint_extra("zz", 0.0);
    assert_eq!((z.name.as_str(), z.damping, z.friction, z.armature, z.effort_lo), ("zz", 0.0, 0.0, 0.0, 0.0));
    let s = m.site("sole", [0.0; 3], [1.0, 0.0, 0.0, 0.0]);
    assert_eq!((s.body.as_str(), s.pos), ("foot", [1.0, 2.0, 3.0]));
    let s = m.site("nope", [0.0; 3], [1.0, 0.0, 0.0, 0.0]);
    assert_eq!((s.name.as_str(), s.body.as_str(), s.pos, s.quat), ("nope", "", [0.0; 3], [1.0, 0.0, 0.0, 0.0]));
}

#[test]
fn scene_keyframes_override_robot_rows_of_the_same_name() {
    let mut m = model();
    m.merge_keyframes(
        vec!["short".into(), "new".into(), "new".into()],
        vec![vec![7.0], vec![8.0], vec![9.0]],
    );
    assert_eq!(m.kf_names, vec!["home", "short", "new"]);
    assert_eq!(m.kf_qpos[0].len(), 9);
    assert_eq!(m.kf_qpos[1], vec![7.0]);
    assert_eq!(m.kf_qpos[2], vec![9.0]);
    assert_eq!(m.joints.len(), 2);
}

const DEFAULTS: &str = "<mujoco>\
<compiler angle=\"radian\" meshdir=\"a\"/><compiler angle=\"degree\"/>\
<default class=\"main\">\
  <default class=\"g1\"><joint damping=\"2\" armature=\"0.01\"/><position forcerange=\"-88 88\"/>\
    <default class=\"visual\"><geom contype=\"0\" conaffinity=\"0\" type=\"mesh\"/></default>\
    <default class=\"collision\"><geom type=\"capsule\"/></default>\
    <default class=\"knee\"><joint frictionloss=\"0.3\"/><position forcerange=\"5\"/></default>\
  </default>\
  <default class=\"g1\"><geom type=\"sphere\"/></default>\
  <default><default class=\"deep\"><joint/></default></default>\
</default>\
<actuator><position joint=\"hip\" class=\"g1\"/><position class=\"g1\"/><motor joint=\"m\"/>\
<position joint=\"knee\"/></actuator>\
</mujoco>";

#[test]
fn default_classes_flatten_every_level_and_merge_by_name() {
    let doc = parse_document(DEFAULTS).unwrap();
    let t = default_classes(&doc);
    let names: Vec<&str> = t.iter().map(|c| c.name.as_str()).collect();
    assert_eq!(names, vec!["g1", "visual", "collision", "knee", "deep"]);
    let g1 = &t[find_class(&t, "g1").unwrap()];
    assert_eq!((g1.damping.as_str(), g1.frictionloss.as_str(), g1.armature.as_str()), ("2", "0", "0.01"));
    assert_eq!(g1.force, Some(("-88".to_string(), "88".to_string())));
    // the second g1 block adds its geom default to the first's
    assert_eq!(g1.contact, Some(("1".to_string(), "1".to_string())));
    assert_eq!(g1.geom_type, "sphere");
    let knee = &t[find_class(&t, "knee").unwrap()];
    // a nested class starts blank: it does not inherit its enclosing class
    assert_eq!((knee.damping.as_str(), knee.frictionloss.as_str()), ("0", "0.3"));
    assert_eq!(knee.force, None);
    let vis = &t[find_class(&t, "visual").unwrap()];
    assert_eq!(vis.contact, Some(("0".to_string(), "0".to_string())));
    assert_eq!(find_class(&t, "main"), None);
    assert_eq!(find_class(&t, ""), None);
}

#[test]
fn joint_dynamics_take_the_element_then_its_class() {
    let doc = parse_document(DEFAULTS).unwrap();
    let t = default_classes(&doc);
    let j = parse_document("<joint frictionloss=\"0.7\"/>").unwrap();
    let (d, f, a) = joint_dynamics(&t, &j, "g1");
    assert_eq!((d.as_str(), f.as_str(), a.as_str()), ("2", "0.7", "0.01"));
    let j = parse_document("<joint class=\"knee\" damping=\"9\"/>").unwrap();
    let (d, f, a) = joint_dynamics(&t, &j, "g1");
    assert_eq!((d.as_str(), f.as_str(), a.as_str()), ("9", "0.3", "0"));
    let j = parse_document("<joint/>").unwrap();
    let (d, f, a) = joint_dynamics(&t, &j, "");
    assert_eq!((d.as_str(), f.as_str(), a.as_str()), ("0", "0", "0"));
    let (d, _, _) = joint_dynamics(&t, &j, "unknown");
    assert_eq!(d, "0");
}

#[test]
fn geom_contact_and_type_resolve_through_the_classes() {
    let doc = parse_document(DEFAULTS).unwrap();
    let t = default_classes(&doc);
    let g = |s: &str| parse_document(s).unwrap();
    assert_eq!(geom_contact(&t, &g("<geom class=\"collision\" contype=\"0\" conaffinity=\"0\"/>")), None);
    assert_eq!(geom_contact(&t, &g("<geom class=\"self_collision_only\"/>")), None);
    assert_eq!(geom_contact(&t, &g("<geom/>")), Some(("0".to_string(), "0".to_string())));
    assert_eq!(geom_contact(&t, &g("<geom contype=\"1\"/>")), Some(("1".to_string(), "0".to_string())));
    assert_eq!(geom_contact(&t, &g("<geom class=\"visual\"/>")), Some(("0".to_string(), "0".to_string())));
    assert_eq!(geom_contact(&t, &g("<geom class=\"knee\"/>")), None);
    assert_eq!(geom_contact(&t, &g("<geom class=\"nope\" conaffinity=\"2\"/>")), Some(("0".to_string(), "2".to_string())));
    assert_eq!(geom_type(&t, &g("<geom type=\"box\" class=\"visual\"/>")), "box");
    assert_eq!(geom_type(&t, &g("<geom class=\"collision\"/>")), "capsule");
    assert_eq!(geom_type(&t, &g("<geom class=\"knee\"/>")), "mesh");
    assert_eq!(geom_type(&t, &g("<geom/>")), "mesh");
}

#[test]
fn actuator_rows_and_compiler_settings() {
    let doc = parse_document(DEFAULTS).unwrap();
    let rows = actuator_rows(&doc);
    let v: Vec<(&str, &str)> = rows.iter().map(|(j, c)| (j.as_str(), c.as_str())).collect();
    assert_eq!(v, vec![("hip", "g1"), ("knee", "")]);
    let c = compiler_settings(&doc).unwrap();
    assert_eq!((c.meshdir.as_str(), c.degrees), (".", true));
    assert!(compiler_settings(&parse_document("<mujoco/>").unwrap()).is_none());
    let rad = compiler_settings(&parse_document("<mujoco><compiler meshdir=\"m\"/></mujoco>").unwrap()).unwrap();
    assert_eq!((rad.meshdir.as_str(), rad.degrees), ("m", false));
}

#[test]
fn a_second_document_folds_its_classes_over_the_first() {
    let mut t = default_classes(&parse_document(DEFAULTS).unwrap());
    let more = parse_document(
        "<mujoco><default><default class=\"knee\"><joint damping=\"4\"/></default>\
         <default class=\"new\"/></default></mujoco>",
    )
    .unwrap();
    read_defaults_into(&mut t, &more);
    let names: Vec<&str> = t.iter().map(|c| c.name.as_str()).collect();
    assert_eq!(names, vec!["g1", "visual", "collision", "knee", "deep", "new"]);
    let knee = &t[find_class(&t, "knee").unwrap()];
    // a joint default sets all three numbers, an unset one back to zero
    assert_eq!((knee.damping.as_str(), knee.frictionloss.as_str()), ("4", "0"));
}

#[test]
fn keyframes_map_to_nothing_without_a_joint_table() {
    let mut m = model();
    m.joints.clear();
    m.kf_names = vec!["s".to_string()];
    m.kf_qpos = vec![vec![0.0, 0.0, 0.0, 1.0, 0.0, 0.0, 0.0]];
    assert!(m.keyframe_q("s", &vec!["a".to_string()], 0.0).is_empty());
    // the base pose does not need the joint table
    assert_eq!(m.keyframe_base("s", &vec![9.0; 7]), vec![0.0, 0.0, 0.0, 1.0, 0.0, 0.0, 0.0]);
}

#[test]
fn the_robot_is_named_by_the_mujoco_root() {
    let doc = parse_document("<mujoco model=\"g1\"><worldbody/><worldbody><body name=\"x\"/></worldbody></mujoco>").unwrap();
    assert_eq!(robot_name(&doc, "g1.xml").unwrap(), "g1");
    assert_eq!(worldbody_index(&doc), Some(1));
    let plain = parse_document("<mujoco/>").unwrap();
    assert_eq!(robot_name(&plain, "p.xml").unwrap(), "mjcf_robot");
    assert_eq!(worldbody_index(&plain), None);
    let other = parse_document("<robot/>").unwrap();
    assert_eq!(robot_name(&other, "r.urdf").unwrap_err(), "simu.mjcf_convert: r.urdf has no <mujoco> root");
}

#[test]
fn a_walk_is_rejected_exactly_when_a_nested_body_is() {
    // the only fault is three levels down
    let bad = "<body name=\"a\"><freejoint/><body name=\"b\"><joint/><body name=\"c\"><joint type=\"ball\"/></body></body></body>";
    assert_eq!(
        plan(bad).err().unwrap(),
        "simu.mjcf_convert: joint ? of type ball unsupported (serial hinge chains only)"
    );
    let good = "<body name=\"a\"><freejoint/><body name=\"b\"><joint/><body name=\"c\"><joint/></body></body></body>";
    assert_eq!(plan(good).unwrap().len(), 3);
}

#[test]
fn keyframes_read_with_more_rows_than_names() {
    let mut m = model();
    m.kf_qpos.push(vec![5.0]);
    assert_eq!(m.keyframe_q("home", &vec!["a".to_string()], 0.0), vec![0.3]);
    assert_eq!(m.keyframe_base("home", &vec![0.0; 7])[2], 0.8);
}

#[test]
fn joint_rows_lists_every_row_of_a_name() {
    let mut m = model();
    m.joints.push(extra("a", 0.3));
    assert_eq!(joint_rows(&m.joints, "a"), vec![0, 2]);
    assert_eq!(joint_rows(&m.joints, "b"), vec![1]);
    assert!(joint_rows(&m.joints, "z").is_empty());
}

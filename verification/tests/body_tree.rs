use control_model::body_tree::{body_tree_from_decls, BodyTree};
use control_model::urdf::robot_decls;
use control_model::xml::parse_document;

fn joint(name: &str, jtype: &str, parent: &str, child: &str) -> String {
    format!(
        "<joint name=\"{name}\" type=\"{jtype}\"><parent link=\"{parent}\"/><child link=\"{child}\"/></joint>\n"
    )
}

fn tree_of(body: &str) -> Result<BodyTree, String> {
    let doc = parse_document(&format!("<robot name=\"r\">\n{body}</robot>")).unwrap();
    let (js, ls) = robot_decls(&doc);
    body_tree_from_decls("r.urdf", &js, &ls)
}

fn links(names: &[&str]) -> String {
    names.iter().map(|n| format!("<link name=\"{n}\"/>\n")).collect()
}

fn biped() -> BodyTree {
    let mut s = links(&["pelvis", "torso", "head", "right_hip", "left_hip", "left_knee"]);
    s.push_str(&joint("waist_yaw_joint", "revolute", "pelvis", "torso"));
    s.push_str(&joint("right_hip_joint", "revolute", "pelvis", "right_hip"));
    s.push_str(&joint("neck_joint", "revolute", "torso", "head"));
    s.push_str(&joint("left_hip_joint", "revolute", "pelvis", "left_hip"));
    s.push_str(&joint("left_knee_joint", "revolute", "left_hip", "left_knee"));
    tree_of(&s).expect("biped tree")
}

#[test]
fn the_tree_is_walked_depth_first_with_children_sorted_by_link_name() {
    let t = biped();
    assert_eq!(t.urdf, "r.urdf");
    assert_eq!(t.root, 0);
    let names: Vec<&str> = t.nodes.iter().map(|n| n.name.as_str()).collect();
    assert_eq!(names, vec!["pelvis", "left_hip", "left_knee", "right_hip", "torso", "head"]);
    let parents: Vec<i32> = t.nodes.iter().map(|n| n.parent).collect();
    assert_eq!(parents, vec![-1, 0, 1, 0, 0, 4]);
    let jos: Vec<i32> = t.nodes.iter().map(|n| n.jo).collect();
    assert_eq!(jos, vec![-1, 0, 1, 2, 3, 4]);
    assert_eq!(
        t.q_names,
        vec!["left_hip_joint", "left_knee_joint", "right_hip_joint", "waist_yaw_joint", "neck_joint"]
    );
    assert_eq!(t.nodes[0].joint, "");
    assert_eq!(t.nodes[5].joint, "neck_joint");
}

#[test]
fn lookups_by_name_and_by_q_slot() {
    let t = biped();
    assert_eq!(t.n_q(), 5);
    assert_eq!(t.nv(), 11);
    assert_eq!(t.q_index("neck_joint"), Some(4));
    assert_eq!(t.q_index("left_hip_joint"), Some(0));
    assert_eq!(t.q_index("nope"), None);
    assert_eq!(t.node_index("torso"), Some(4));
    assert_eq!(t.node_index("pelvis"), Some(0));
    assert_eq!(t.node_index("nope"), None);
    // the body moved by q slot k is the body one past it
    for k in 0..t.n_q() {
        assert_eq!(t.node_of_q(k), Some(k + 1));
        assert_eq!(t.nodes[k + 1].joint, t.q_names[k]);
    }
    assert_eq!(t.node_of_q(5), None);
}

#[test]
fn contact_slots_put_the_root_last() {
    let t = biped();
    assert_eq!(t.contact_slot_of("pelvis"), Some(5));
    assert_eq!(t.contact_slot_of("left_hip"), Some(0));
    assert_eq!(t.contact_slot_of("head"), Some(4));
    assert_eq!(t.contact_slot_of("nope"), None);
    let mut slots: Vec<usize> = t.nodes.iter().map(|n| t.contact_slot_of(&n.name).unwrap()).collect();
    slots.sort();
    assert_eq!(slots, vec![0, 1, 2, 3, 4, 5]);
}

#[test]
fn path_joints_run_from_the_root_to_the_body() {
    let t = biped();
    assert_eq!(t.path_joints(0), Vec::<usize>::new());
    assert_eq!(t.path_joints(2), vec![0, 1]);
    assert_eq!(t.path_joints(5), vec![3, 4]);
    let mut buf = vec![9, 9, 9];
    t.path_joints_into(3, &mut buf);
    assert_eq!(buf, vec![2]);
}

#[test]
fn an_explicit_floating_joint_names_the_root() {
    let mut s = links(&["world", "base", "arm"]);
    s.push_str(&joint("float", "floating", "world", "base"));
    s.push_str(&joint("shoulder", "revolute", "base", "arm"));
    let t = tree_of(&s).unwrap();
    let names: Vec<&str> = t.nodes.iter().map(|n| n.name.as_str()).collect();
    assert_eq!(names, vec!["base", "arm"]);
    assert_eq!(t.q_names, vec!["shoulder"]);
}

#[test]
fn root_errors() {
    let mut two_float = links(&["w", "a", "b"]);
    two_float.push_str(&joint("f1", "floating", "w", "a"));
    two_float.push_str(&joint("f2", "floating", "w", "b"));
    assert_eq!(tree_of(&two_float).err().unwrap(), "simu.body_tree: multiple floating joints");

    let two_roots = links(&["a", "b"]);
    assert_eq!(tree_of(&two_roots).err().unwrap(), "simu.body_tree: multiple root links");

    let mut none = links(&["x", "y"]);
    none.push_str(&joint("j1", "revolute", "x", "y"));
    none.push_str(&joint("j2", "revolute", "y", "x"));
    assert_eq!(tree_of(&none).err().unwrap(), "simu.body_tree: no root link found");
    assert_eq!(tree_of("").err().unwrap(), "simu.body_tree: no root link found");

    let mut ghost = links(&["w"]);
    ghost.push_str(&joint("f", "floating", "w", "ghost"));
    assert_eq!(tree_of(&ghost).err().unwrap(), "simu.body_tree: root link ghost missing");
}

#[test]
fn joint_errors() {
    let mut slide = links(&["a", "b"]);
    slide.push_str(&joint("s", "prismatic", "a", "b"));
    assert_eq!(tree_of(&slide).err().unwrap(), "simu.body_tree: joint s of type prismatic unsupported");

    let mut lost = links(&["a"]);
    lost.push_str(&joint("j", "revolute", "a", "nope"));
    assert_eq!(tree_of(&lost).err().unwrap(), "simu.body_tree: joint j: child link nope missing");

    let mut cyc = links(&["r", "a", "b"]);
    cyc.push_str(&joint("ra", "revolute", "r", "a"));
    cyc.push_str(&joint("ab", "revolute", "a", "b"));
    cyc.push_str(&joint("ba", "revolute", "b", "a"));
    assert_eq!(
        tree_of(&cyc).err().unwrap(),
        "simu.body_tree: the joints below the root link form a cycle"
    );
}

#[test]
fn a_link_reached_twice_becomes_two_bodies() {
    let mut s = links(&["r", "a", "b", "c", "d"]);
    s.push_str(&joint("ra", "revolute", "r", "a"));
    s.push_str(&joint("rb", "revolute", "r", "b"));
    s.push_str(&joint("ac", "revolute", "a", "c"));
    s.push_str(&joint("bc", "revolute", "b", "c"));
    s.push_str(&joint("cd", "revolute", "c", "d"));
    let t = tree_of(&s).unwrap();
    let names: Vec<&str> = t.nodes.iter().map(|n| n.name.as_str()).collect();
    assert_eq!(names, vec!["r", "a", "c", "d", "b", "c", "d"]);
    let parents: Vec<i32> = t.nodes.iter().map(|n| n.parent).collect();
    assert_eq!(parents, vec![-1, 0, 1, 2, 0, 4, 5]);
}

const G1_Q: [&str; 29] = [
    "left_hip_pitch_joint",
    "left_hip_roll_joint",
    "left_hip_yaw_joint",
    "left_knee_joint",
    "left_ankle_pitch_joint",
    "left_ankle_roll_joint",
    "right_hip_pitch_joint",
    "right_hip_roll_joint",
    "right_hip_yaw_joint",
    "right_knee_joint",
    "right_ankle_pitch_joint",
    "right_ankle_roll_joint",
    "waist_yaw_joint",
    "waist_roll_joint",
    "waist_pitch_joint",
    "left_shoulder_pitch_joint",
    "left_shoulder_roll_joint",
    "left_shoulder_yaw_joint",
    "left_elbow_joint",
    "left_wrist_roll_joint",
    "left_wrist_pitch_joint",
    "left_wrist_yaw_joint",
    "right_shoulder_pitch_joint",
    "right_shoulder_roll_joint",
    "right_shoulder_yaw_joint",
    "right_elbow_joint",
    "right_wrist_roll_joint",
    "right_wrist_pitch_joint",
    "right_wrist_yaw_joint",
];

/// The G1 humanoid's topology as its URDF states it: a rootless pelvis, two six-joint legs, a
/// three-joint waist ending at the torso, and two seven-joint arms on the torso; each joint's child
/// link carries the joint's name with `_link` for `_joint` (the waist pitch moves the torso).
fn g1_shaped_tree() -> BodyTree {
    let link_of = |j: &str| {
        if j == "waist_pitch_joint" {
            "torso_link".to_string()
        } else {
            j.replace("_joint", "_link")
        }
    };
    let mut s = links(&["pelvis"]);
    let mut parent = String::new();
    for (i, j) in G1_Q.iter().enumerate() {
        let start_of_limb = [0, 6, 12, 15, 22].contains(&i);
        if start_of_limb {
            parent = if i >= 15 { "torso_link".to_string() } else { "pelvis".to_string() };
        }
        let child = link_of(j);
        s.push_str(&links(&[child.as_str()]));
        s.push_str(&joint(j, "revolute", &parent, &child));
        parent = child;
    }
    tree_of(&s).expect("g1 tree")
}

#[test]
fn g1_engine_order_q_names() {
    let t = g1_shaped_tree();
    assert_eq!(t.q_names, G1_Q.to_vec());
}

#[test]
fn the_contact_slot_layout_is_what_the_named_feet_resolve_to() {
    let t = g1_shaped_tree();
    let l = t.contact_slot_of("left_ankle_roll_link");
    let r = t.contact_slot_of("right_ankle_roll_link");
    assert_eq!(l, Some(5), "the left foot's contact slot moved");
    assert_eq!(r, Some(11), "the right foot's contact slot moved");
    assert_ne!(l, r);
    assert_eq!(t.contact_slot_of("no_such_link"), None);
    assert_eq!(t.contact_slot_of("pelvis"), Some(t.nodes.len() - 1));
}

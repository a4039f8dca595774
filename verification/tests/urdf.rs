use control_model::urdf::{
    find_link, parse_joint, parse_link, plan_chain, robot_decls, split_spaces, vec3_parts, JointDecl,
};
use control_model::xml::parse_document;

fn arm_urdf(mid_type: &str) -> String {
    let mut s = String::from("<robot name=\"arm\">\n<link name=\"link00\"/>\n");
    for i in 1..=6 {
        let jt = if i == 3 { mid_type } else { "revolute" };
        s.push_str(&format!(
            "<joint name=\"joint{i}\" type=\"{jt}\"><parent link=\"link0{}\"/><child link=\"link0{i}\"/>\
             <origin xyz=\"0 0 0.1\" rpy=\"0 0 0\"/><axis xyz=\"0 0 1\"/>\
             <dynamics damping=\"{i}.0\"/><limit lower=\"-2\" upper=\"2\"/></joint>\n",
            i - 1
        ));
        s.push_str(&format!("<link name=\"link0{i}\"/>\n"));
    }
    s.push_str(
        "<joint name=\"gripperStator\" type=\"fixed\"><parent link=\"link06\"/><child link=\"gripper\"/>\
         <origin xyz=\"0.05 0 0\"/></joint>\n<link name=\"gripper\"/>\n</robot>",
    );
    s
}

fn decls(mid_type: &str) -> Vec<JointDecl> {
    let doc = parse_document(&arm_urdf(mid_type)).unwrap();
    robot_decls(&doc).0
}

#[test]
fn robot_decls_reads_joints_and_links_in_document_order() {
    let doc = parse_document(&arm_urdf("revolute")).unwrap();
    let (js, ls) = robot_decls(&doc);
    assert_eq!(js.len(), 7);
    assert_eq!(ls.len(), 8);
    assert_eq!(js[0].name, "joint1");
    assert_eq!(js[6].name, "gripperStator");
    assert_eq!(ls[0].name, "link00");
    assert_eq!(ls[7].name, "gripper");
    assert_eq!(js[1].parent, "link01");
    assert_eq!(js[1].child, "link02");
    assert_eq!(js[1].damping.as_deref(), Some("2.0"));
    assert_eq!(js[6].jtype, "fixed");
    assert_eq!(js[6].axis, None);
    assert_eq!(js[6].rpy, "");
    assert_eq!(js[6].xyz, "0.05 0 0");
}

#[test]
fn parse_joint_takes_the_last_element_and_skips_empty_limits() {
    let doc = parse_document(
        "<joint name=\"j\" type=\"revolute\"><origin xyz=\"1 2 3\" rpy=\"0 0 1\"/><origin xyz=\"4 5 6\"/>\
         <limit lower=\"-1\" upper=\"1\"/><limit lower=\"\" upper=\"3\"/><dynamics damping=\"0.5\"/>\
         <dynamics damping=\"\"/><parent link=\"a\"/><child link=\"b\"/></joint>",
    )
    .unwrap();
    let j = parse_joint(&doc);
    assert_eq!(j.name, "j");
    assert_eq!(j.jtype, "revolute");
    assert_eq!(j.xyz, "4 5 6");
    assert_eq!(j.rpy, "");
    assert_eq!(j.lower.as_deref(), Some("-1"));
    assert_eq!(j.upper.as_deref(), Some("3"));
    assert_eq!(j.damping.as_deref(), Some("0.5"));
    assert_eq!(j.axis, None);
    assert_eq!((j.parent.as_str(), j.child.as_str()), ("a", "b"));
}

#[test]
fn parse_link_reads_the_inertial_record() {
    let doc = parse_document(
        "<link name=\"l\"><inertial><origin xyz=\"0.1 0 0\" rpy=\"0 0 0.5\"/><mass value=\"2.5\"/>\
         <inertia ixx=\"1\" iyy=\"2\" izz=\"3\" ixz=\"0.1\"/></inertial><visual/></link>",
    )
    .unwrap();
    let l = parse_link(&doc);
    assert_eq!(l.name, "l");
    assert_eq!(l.com, "0.1 0 0");
    assert_eq!(l.rpy, "0 0 0.5");
    assert_eq!(l.mass, "2.5");
    assert_eq!((l.ixx.as_str(), l.iyy.as_str(), l.izz.as_str()), ("1", "2", "3"));
    assert_eq!((l.ixy.as_str(), l.ixz.as_str(), l.iyz.as_str()), ("0", "0.1", "0"));
    let bare = parse_link(&parse_document("<link name=\"m\"/>").unwrap());
    assert_eq!(bare.mass, "");
    assert_eq!(bare.ixx, "");
}

#[test]
fn plan_chain_orders_the_arm_from_base_to_end() {
    let js = decls("revolute");
    let p = plan_chain(&js, "link00", "link06").expect("chain");
    assert_eq!(p.joints, vec![0, 1, 2, 3, 4, 5]);
    assert!(p.tip_fixed.is_empty());
}

#[test]
fn plan_chain_folds_trailing_fixed_joints_into_the_tip() {
    let js = decls("revolute");
    let p = plan_chain(&js, "link00", "gripper").expect("chain to the gripper");
    assert_eq!(p.joints, vec![0, 1, 2, 3, 4, 5]);
    assert_eq!(p.tip_fixed, vec![6]);
}

#[test]
fn an_unknown_end_link_is_an_error_but_a_sub_chain_is_not() {
    let js = decls("revolute");
    assert_eq!(
        plan_chain(&js, "link00", "no_such_link").err().unwrap(),
        "simu.urdf_chain: no serial chain from link00 to no_such_link"
    );
    let sub = plan_chain(&js, "link03", "link06").expect("sub-chain");
    assert_eq!(sub.joints, vec![3, 4, 5]);
    assert_eq!(js[sub.joints[0]].name, "joint4");
    assert_eq!(js[sub.joints[2]].child, "link06");
}

#[test]
fn a_mid_chain_joint_of_another_type_is_rejected() {
    let js = decls("fixed");
    assert_eq!(
        plan_chain(&js, "link00", "link06").err().unwrap(),
        "simu.urdf_chain: only revolute joints are supported inside a serial chain"
    );
    let js = decls("prismatic");
    assert!(plan_chain(&js, "link00", "link06").is_err());
    // the revolute part below the odd joint is still a chain
    assert_eq!(plan_chain(&js, "link03", "link06").unwrap().joints, vec![3, 4, 5]);
}

#[test]
fn a_chain_of_only_fixed_joints_has_no_revolute_joint() {
    let js = decls("revolute");
    assert_eq!(
        plan_chain(&js, "link06", "gripper").err().unwrap(),
        "simu.urdf_chain: no revolute joints from link06 to gripper"
    );
    // the base itself is no chain
    assert!(plan_chain(&js, "link00", "link00").is_err());
}

#[test]
fn plan_chain_walks_through_a_joint_cycle_without_looping() {
    let doc = parse_document(
        "<robot><joint name=\"a\" type=\"revolute\"><parent link=\"x\"/><child link=\"y\"/></joint>\
         <joint name=\"b\" type=\"revolute\"><parent link=\"y\"/><child link=\"x\"/></joint></robot>",
    )
    .unwrap();
    let (js, _) = robot_decls(&doc);
    assert_eq!(
        plan_chain(&js, "base", "y").err().unwrap(),
        "simu.urdf_chain: no serial chain from base to y"
    );
    // a base that is also the end: the walk goes round the cycle once
    let p = plan_chain(&js, "y", "y").unwrap();
    assert_eq!(p.joints, vec![1, 0]);
}

#[test]
fn vector_attributes_split_on_single_spaces() {
    assert_eq!(vec3_parts("1 2 3"), vec!["1", "2", "3"]);
    assert_eq!(vec3_parts("1  3"), vec!["1", "", "3"]);
    assert_eq!(vec3_parts("0.5"), vec!["0.5", "", ""]);
    assert_eq!(vec3_parts(""), vec!["", "", ""]);
    assert_eq!(vec3_parts("1 2 3 4"), vec!["1", "2", "3"]);
    assert_eq!(vec3_parts("1\t2 3"), vec!["1\t2", "3", ""]);
    assert_eq!(split_spaces(" a "), vec!["", "a", ""]);
}

#[test]
fn a_later_link_record_of_a_name_wins() {
    let doc = parse_document(
        "<robot><link name=\"a\"/><link name=\"b\"/><link name=\"a\"><inertial><mass value=\"2\"/></inertial></link></robot>",
    )
    .unwrap();
    let (_, ls) = robot_decls(&doc);
    assert_eq!(find_link(&ls, "a"), Some(2));
    assert_eq!(ls[2].mass, "2");
    assert_eq!(find_link(&ls, "b"), Some(1));
    assert_eq!(find_link(&ls, "c"), None);
}

#[test]
fn no_chain_exactly_when_the_walk_back_never_reaches_the_base() {
    let js = decls("revolute");
    // link05 is reached walking back from link06, link00 too; the gripper is below the end
    assert!(plan_chain(&js, "link05", "link06").is_ok());
    assert_eq!(
        plan_chain(&js, "gripper", "link06").err().unwrap(),
        "simu.urdf_chain: no serial chain from gripper to link06"
    );
    assert_eq!(
        plan_chain(&js, "link06", "link03").err().unwrap(),
        "simu.urdf_chain: no serial chain from link06 to link03"
    );
}

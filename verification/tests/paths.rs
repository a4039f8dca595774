use control_model::models::{g1_dir, g1_meta, g1_robot, g1_scene, g1_urdf, join, root, wall, z1_urdf};
use control_model::urdf::urdf_path;

#[test]
fn model_paths_hang_off_the_crate_directory() {
    assert_eq!(root("/src/ctl"), "/src/ctl/models");
    assert_eq!(root("/src/ctl/"), "/src/ctl/models");
    assert_eq!(z1_urdf("/c"), "/c/models/z1/z1.urdf");
    assert_eq!(urdf_path("/c"), "/c/models/z1/z1.urdf");
    assert_eq!(g1_dir("/c"), "/c/models/unitree_g1");
    assert_eq!(g1_robot("/c"), "/c/models/unitree_g1/src/g1.xml");
    assert_eq!(g1_scene("/c"), "/c/models/unitree_g1/src/scene.xml");
    assert_eq!(g1_urdf("/c"), "/c/models/unitree_g1/unitree_g1.urdf");
    assert_eq!(g1_meta("/c"), "/c/models/unitree_g1/unitree_g1_meta.json");
    assert_eq!(wall("/c"), "/c/models/wall.stl");
}

#[test]
fn join_adds_one_separator() {
    assert_eq!(join("", "a"), "a");
    assert_eq!(join("a", "b"), "a/b");
    assert_eq!(join("a/", "b"), "a/b");
}

//! The model basis of the control stack: the XML reader and the topology of the URDF and MJCF
//! robot descriptions, with the numeric (floating-point) kinematics and dynamics kept outside.
pub mod text;
pub mod xml;
pub mod models;
pub mod urdf;
pub mod body_tree;
pub mod vfmt;
pub mod mjcf_model;
pub mod mjcf_convert;
pub mod mjcf_defaults;

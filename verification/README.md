# control_model

The model basis of a robot control stack: the XML reader and the topology of the URDF and MJCF
robot descriptions, as a Verus-verified library, with the floating-point kinematics and dynamics
around it.

- `src/` — the verified library: the XML element tree (parsed by roxmltree), the URDF joint and
  link records and the serial-chain plan, the floating-root body tree in the engine's q order, the
  MJCF reading side (number lists, assets, keyframes, actuators, default classes, the body walk
  and its rejections), the sidecar tables and the text rules of the number formats. Contracts are
  stated over `Seq`/`Map` models; the laws the library keeps are public proof functions.
- `app/` — the unverified numeric side: file reads, origins, axes and inertias as `f64`,
  forward kinematics, Jacobians, the PGA layer, fixed-base and floating-base dynamics, the URDF
  text the converter writes and the JSON sidecar.
- `tests/` — the library's tests on concrete documents.

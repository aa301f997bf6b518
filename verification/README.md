# modeler_app

The logic of an interactive 3D modeler, written in Verus: what its tools decide
is stated in contracts over mathematical models and proved.

Positions, lengths and angles are single-precision numbers. The library holds
them by their bit patterns (`scalar`) and compares them exactly; arithmetic on
them happens in the application, which hands the results back in. Engines (the
renderer, the physics world, the geometry kernel) are driven by lists of
commands that the library returns.

## Layout

`src/` is the verified library.

- Document: `scalar`, `scene`, `selection`, `object_ops`, `bricks`, `floors`
- Meshes: `topology`, `mesh_data`, `edge_ring`, `mesh_edit`, `bevel`,
  `subdivision`, `modifiers`, `modifier_ops`
- Tools: `modal`, `modal_apply`, `rope_handles`, `roof_tool`, `terrain_sculpt`,
  `poke`, `pie`
- Rendering: `fingerprint`, `shading`, `slot_ranges`, `slot_looks`,
  `scene_render`, `scene_render_laws`, `wireframe`, `overlay`, `preview`,
  `render_preview`, `texture_bridge`
- Simulation: `physics`, `physics_laws`, `physics_queries`, `soft_bodies`
- Materials and pictures: `pbr_catalog`, `pbr_import`, `pbr_library`, `images`,
  `json`, `net`
- Reference drawings: `ref_image`, `ref_setup`, `pdf`
- Settings and looks: `settings`, `theme`
- Shared: `seqs`, `text`

Calls into other crates (`image`, `base64`, `serde_json`) and into parts of the
standard library stand behind small functions marked
`#[verifier::external_body]`, in `images`, `json`, `net`, `text` and
`pbr_library`. Their doc comments say what is taken on trust.

Properties that relate several operations are public proof functions whose
names begin with `law_`.

`tests/` runs the library on concrete values. `app/` is ordinary Rust around it:
files, the network, panels and drawing with egui, and floating-point geometry.

# raytracer

A small real-time ray tracer (spheres, a movable camera, a bounding volume
hierarchy) whose integer and structural logic is verified with Verus.

- `src/` — the verified library:
  - `color.rs`: packing three 8-bit channels into a `0x00RRGGBB` pixel;
  - `framebuffer.rs`: the row-major image handed to the window;
  - `controls.rs`: the camera steps, in order, for the keys held in a frame;
  - `bvh.rs`: the shape of the bounding volume hierarchy — which object goes
    to which leaf, halving each group along the order the caller supplies,
    with every object placed exactly once and depth `⌈log2 n⌉`.
- `app/` — the program: window and keyboard (minifb), and all geometry and
  shading, which compute on `f32` and so stay outside the verified library.
- `tests/` — tests of the library.

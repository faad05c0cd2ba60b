# raytracer

An interactive ray tracer: scenes are described in a Rhai script, shown in a
window and rendered by worker threads, pixel by pixel in random order.

`src/` is the verified library, in Verus:

- `bvh` — the bounding volume hierarchy: building it by recursive splits
  and traversing it. The geometry (boxes, split planes, hits, distances)
  comes in through closures; the library proves that the tree holds every
  primitive once, that its leaves tile the primitives, that it needs at most
  `2n - 1` nodes, that every split follows the classification it was given
  and leaves the primitives in the order of its two-cursor partition, that
  children are allocated depth first, left before right, and what a
  traversal reports: at a leaf only its first primitive is tested, and of
  two hits below an inner node the one the caller calls nearer wins.
- `queue` — the shuffled queue of pixels and the batches the workers take.
- `frame` — the RGBA frame buffer: clearing it and writing shaded pixels.
- `input` — keyboard and mouse state for moving and orbiting the camera.
- `obj` — reading the lines of OBJ mesh files.
- `primitive` — the surfaces without parameters.
- `report` — the lines that report a failed call.

`app/` is the program around it: the window, the GUI, the scripting
engine, and all floating-point geometry (cameras, rays, primitives,
shading), which stays unverified.

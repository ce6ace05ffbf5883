# rs_wgpu_engine

Core of a small rendering engine, written in Verus and verified.

- `src/id.rs` — the application-wide identifier counter (`generate_id`).
- `src/resource.rs` — typed resource handles, resource pools and the registry that keeps
  one pool per resource kind.
- `src/pool.rs` — the resource pool of the 2D application, which also accepts identifiers
  chosen by the caller.
- `src/named.rs` — a map from names to values.
- `src/shader.rs` — the shader source library and the expansion of
  `// #include <name>` directives.
- `src/attribute.rs` — vertex attributes and geometries.
- `src/node.rs` — scene nodes and the depth-first walks over the node tree.
- `src/work.rs` — the work queue and worker count of the parallel task runner.
- `src/material.rs`, `src/app2d.rs` — small records of the renderer and the 2D application.

`app/` holds the program around the library: file loading, threads, JSON, and the
floating-point matrix math (with `cgmath`).

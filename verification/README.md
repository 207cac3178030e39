# shame-gui core

The data structures, algorithms and decision logic of a GPU 2D GUI
framework, verified with Verus.

- `src/` is the verified library:
  - `graph` — port ids and port groups, the node topology with its
    topological sort (Kahn's algorithm), the per-tick run decision, and
    the key selection of map fan-out nodes;
  - `viewport` — event routing through the viewport tree of splits, tabs,
    containers and widgets, as a step machine proved to follow the
    recursive routing rules;
  - `arena` — the append-only state arena with its dirty marks;
  - `buffer_pool` — the best-fit buffer pool;
  - `material` — the instance-arena slice allocator (coalescing first-fit
    free list, append cursor, CPU mirror), indirect-draw records, and the
    instance buffer with its upload watermark;
  - `canvas` — push-constant batching and draw ordering of the fast path;
  - `capture` — row padding and channel swizzling of frame readbacks;
  - `instance` — WGSL structure-member offsets;
  - `editing` — keyboard editing of the text, numeric and two-component
    editors over UTF-8 byte cursors;
  - `gui`, `math`, `shader` — the GUI vocabulary, integer vectors and the
    viewport uniform.
- `tests/` exercises the library.
- `app/` is the runtime around it: float geometry, winit input, typed
  ports and state references, the DAG driver, the driver of the viewport
  event walk, typed instance buffers and GPU frame readback.

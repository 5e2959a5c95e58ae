# xui

The verified core of a declarative GUI runtime: the retained render scene,
the work tracking of the UI tree, the hook scheduler, and text offsets.
Every function under `src/` carries a Verus contract and is proved against
it; `tests/` runs the library on concrete values; `app/` holds the glue that
needs the async runtime.

Layout of `src/`:

- `scene_spec`, `scene`, `node_store`, `dirty`: the render scene as a forest
  of nodes with parent and child links, dirty flags, subtree dirty summaries
  and change epochs; node ids come from a generational slot map.
- `writer`: reconciling a widget's render output into a scene group, reusing
  compatible nodes and removing stale ones.
- `scaffold`, `wrappers`: the nodes of a UI host (root transform, style
  transform, clip and layer wrappers, contents, paint, children group, scroll
  transform, scrollbar overlay), how they are created and kept in step with
  the host, and the invariant `host_linked` that every update keeps.
- `host_work`: the work flags of UI hosts, their summaries in the ancestors,
  and the lists of hosts waiting for layout, shaping or a state sync.
- `properties`: frame properties (transforms and composites that change per
  frame) with revisions and acknowledgement.
- `compile`, `graph`, `compiler`, `plan`: the decisions of the scene
  compiler, the compiled picture graph it builds from the scene (pictures,
  primitives, spatial nodes and clips, found again by source node so rebuilds
  keep their ids; what the picture graph no longer reaches is dropped), the
  compiler that keeps the graph up to date across frames, and the ordering
  and versions of a render plan.
- `lanes`, `state`, `hooks`: update lanes, the hook scheduler and the
  decisions of the state, task and resource hooks.
- `text`, `assoc`: text offset conversions and small association lists.

Floating-point payloads (transforms, clip shapes, bounds, composite styles)
are held as interned identities, so the structural logic can be verified
without floating point.

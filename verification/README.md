# rnote strokes state, verified

The bookkeeping of the strokes of an rnote document, written in Verus and proved
against its contracts.

- `src/strokesstate/mod.rs`: the strokes state (strokes with their trash,
  selection, chrono and render components), inserting strokes, the chrono order
  of the strokes, the selection.
- `src/strokesstate/render_comp.rs`: the render component of a stroke and every
  operation on it: render and regenerate flags, taking the outcome of a
  rendering, handing renderings to workers, the plan for rendering newly added
  elements, and which strokes the drawing passes draw.
- `src/strokesstate/properties.rs`: properties that relate these operations.
- `src/strokes/strokestyle.rs`: the kinds of strokes.
- `src/ui/appmenu.rs`: which color scheme a theme toggle asks for.
- `app/`: what stays outside the library: the floating-point input data of
  stroke elements, the serialized render component, and the driver that does
  the rendering and drawing work the library decides on.

The images and render nodes of a rendering are type parameters of the state:
the library stores and replaces them, the drawing layer makes them.

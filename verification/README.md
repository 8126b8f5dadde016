# board

A diagram board for compositions of components, ports and connections: it groups parallel
connections, lays components out on a grid, filters and matches ports, tracks what the user
selected, and draws everything on a canvas.

The logic is a Verus library, with contracts proved by Verus:

- `entity`: compositions, components, ports, connections and their signatures; made-up
  entities for trying the board out (`entity::dummy`).
- `state`: what is selected, highlighted, hovered, filtered and matched.
- `board`: selecting a component or a port together with what it is linked to.
- `render`: views of the entities (`render::entity`), the forms they are drawn with
  (`render::form`), the grid that places them (`render::grid`), options, styles and the
  pixel ratio; `render::entity::layout` lays a composition out on the board's grid in one
  call.
- `text`: the few string operations the rest relies on.

`app/` is the browser side: serde copies of the library's types, measuring port labels and
drawing forms on a 2d canvas with the zoom factor, and the `Board` object that JavaScript
drives.

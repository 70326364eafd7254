# zhukoview

Drawing onto ARGB pixel canvases, verified with Verus.

A canvas is a `&mut [u32]` of pixels in rows `stride` pixels apart. A
`CanvasView` is a rectangle of a canvas at an offset; it fills itself, and
composites rectangles, discs (plain or anti-aliased), lines, triangles (one
colour or three blended corner colours), a dashed ruler cross and random
mirrored sprites over its pixels. `Rainbow` walks the colour wheel one
channel step at a time.

Layout:

- `src/helpers.rs`: byte arithmetic on packed colours, alpha compositing
  (`apply_argb`) and three-colour blending (`blend_colours`).
- `src/paint.rs`: the model of drawing, as a row-by-row fold of pixel
  rewrites over a rectangle, and what it does to each pixel.
- `src/lib.rs`: `CanvasView`, clipping (`normalise_rect`), views of views,
  pixel format conversion, `fill` and `add_rect`.
- `src/circle.rs`, `src/triangle.rs`, `src/bresenham.rs`, `src/ruler.rs`,
  `src/sprite.rs`: the shapes; `src/rainbow.rs`: the colour walk.
- `tests/`: tests on concrete canvases.
- `app/main.rs`: a demo that renders a scene (or a sprite sheet) to PNG with
  `pingus`, and the floating-point `rotate` helper.

Every drawing function states, in its `ensures`, the exact canvas it leaves
(for `add_sprite`, whose cell colours are drawn at random, the exact canvas
for some valid draw; `add_sprite_with` takes the draw as an argument and is
exact), and its `requires` states when its arithmetic cannot overflow and
every pixel it writes lies in the canvas.

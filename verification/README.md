# terrain_collision

Pixel-accurate collision of sprites by separating axes, verified with Verus.

From the visible pixels of a sprite the library builds an outline: convex
polygons around its largest component. A plugin keeps outlines for terrain, for
groups of terrain and for moving objects, and takes the moving objects of a scene
out of the terrain, frame by frame.

| module | what it holds |
|---|---|
| `float`, `float_laws`, `float_bounds`, `rounding` | binary32 arithmetic on bit patterns |
| `vec2` | vectors |
| `grid`, `mask`, `background` | pixels, components, borders |
| `contour`, `hull`, `hull_laws`, `simplify`, `polygon`, `polygon_laws` | from border to convex polygons |
| `outline`, `cache_key` | outlines and the keys that they are cached under |
| `sat`, `sat_laws` | overlaps of polygons, boxes, outlines and circles |
| `names`, `scene`, `model` | the model of the plugin |
| `plugin`, `laws`, `group_laws`, `image_source` | the plugin, and what holds of it |

Numbers are of the type `F32`, whose operations are computed with integers, so a
contract can say exactly which number comes out. Sines and cosines are not computed
here: a rotation comes with both. `app/` computes them, and offers the plugin with
`f32` numbers.

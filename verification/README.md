# plotz

Plane geometry for pen plotting, verified with Verus.

Points live on an integer lattice of thousandths of a plotting unit (`Pt`,
`i32` coordinates, `pt::UNIT` steps to the unit); every computation on them
is exact. Fractions along segments are exact fractions (`Frac`); a crossing
point of two segments is rounded onto the lattice toward the start of the
first segment, and a midpoint or a quotient toward zero.

`src/` is the verified library:

- `pt`, `sg`, `frac`, `intersection`: points, segments, fractions and where
  two segments meet;
- `pg`: polygons and multilines (`Pg`), their segments, orientation, where a
  point lies (by exact winding number), equality regardless of the starting
  point, and translation and scaling;
- `crop`: cropping a segment to a polygon;
- `graph`, `crop_graph`: cropping a polygon to a polygon by walking a
  `petgraph` graph of their cut edges (`CropGraph::run` hands back the
  pieces and the graph they were walked out of);
- `occluder`: layering polygons and segments front to back, each cut by
  those in front of it;
- `ml`, `pgc`, `bounds`, `traits`, `utils`: multilines, polygons with
  cavities, bounding boxes, shared traits and helpers;
- `geometry3d`, `physics`, `shp`: small types of the 3D, physics and
  shapefile parts.

`app/` holds the command-line program, the floating-point curve arcs, which
rest on trigonometry, and the oblique projection of 3D scenes, which hands the projected figures
to the library's `Occluder`.

# openpbr

A physically based BSDF library and a viewer that path-traces meshes with it.

The library in `src/` is written in Verus and proved:

- `lobes`: the lobe types of the layered BSDF and `PerLobe`, a fixed-size map from lobe type
  to value.
- `bsdf_lobe_type`: the bit flags that classify a sampled lobe.
- `bvh`: the bounding volume hierarchy over a triangle soup. The structure (in-place
  partition, node layout, leaf ranges) is proved; the geometry that drives it (bounding
  volumes, the leaf test, the side of a split) is handed in as functions.
- `mesh`: an indexed mesh turned into a triangle soup.
- `render`: render settings, the layout of the image buffer, and the decision of what one
  poll of the running renders does.

`app/` is the viewer: the window, GPU preview, file dialog, worker threads, and the shading
code, which is `f32` arithmetic throughout and so stays outside the proofs.

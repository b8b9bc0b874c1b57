# PanoLoom

A panorama stitcher. `src/` is a Verus library that holds what the stitcher
decides and computes with integers, with contracts; `app/` is ordinary Rust
around it: floating-point geometry and photometry, threads, project files and
the browser bindings.

| Stage | Modules |
| --- | --- |
| Images | `image`, `imgproc`, `border` |
| Features and matches | `fast`, `orb`, `matcher`, `rng`, `ransac` |
| Match graph | `estimation`, `spanning`, `tree`, `centers`, `heaviest` |
| Adjustment | `bundle`, `optimizer`, `cp` |
| Warping and masks | `warp`, `masks`, `painted` |
| Exposure, seams, blending | `exposure`, `gcgraph`, `seam`, `blend`, `pyramid`, `multiband` |
| Export | `layout`, `paste`, `export`, `report` |
| Session | `pipeline`, `engine`, `project`, `progress`, `ids`, `text` |

Public proof functions named `lemma_*` state what holds across functions: that
a Laplacian pyramid restores its image, that the bands of an export share its
rows out, that every image is kept, rescued or reported as lost, and only one
of these, that a spanning tree over connected images has one or two centers,
and that no other choice of edges without a ring has more inliers.

The JPEG encoder is trusted; its wrapper says what is claimed of it
(`export::jpeg_encode`).

# EdgeSnap

Finds a document or an ID card in a single RGBA camera frame and rectifies it,
with classical computer vision: grayscale, blur, Canny edges, dilation, largest
edge component, convex hull, Douglas-Peucker to four corners, validation and
classification by aspect ratio; a four-point homography with bilinear sampling
for the upright image. The library is written and proved in Verus.

## Layout

| path                | role                                                    |
|---------------------|---------------------------------------------------------|
| `src/number.rs`     | Floating-point values as bit patterns; the arithmetic as a parameter. |
| `src/frame.rs`      | Size of a frame.                                        |
| `src/grid.rs`       | Pixels, neighbours, connectivity.                       |
| `src/filter.rs`     | Grayscale and blur.                                     |
| `src/edge.rs`       | Sobel gradients, percentile threshold, suppression, Canny. |
| `src/hysteresis.rs` | Weak edges that hang on strong ones.                    |
| `src/morphology.rs` | Dilation.                                               |
| `src/component.rs`  | Flood fill and the largest component.                   |
| `src/hull.rs`       | Convex hull.                                            |
| `src/polygon.rs`    | Simplification of a hull to four corners.               |
| `src/quad.rs`       | Order, area and shape of four corners.                  |
| `src/detect.rs`     | The detection pipeline and its packed result.           |
| `src/linear.rs`     | Gaussian elimination and the projective transform.      |
| `src/exact.rs`      | What elimination and transform give where nothing rounds. |
| `src/range.rs`      | Where measures are numbers, and in which range.         |
| `src/whole.rs`      | Area and order of corners with whole coordinates.       |
| `src/rectify.rs`    | Bilinear sampling and perspective rectification.        |
| `app/`              | IEEE 754 arithmetic and the browser bindings.           |
| `tests/`            | The pipeline and its stages on concrete frames.         |

## How numbers are handled

A `Single` or a `Double` holds the bit pattern of a floating-point value. Order,
sign and limits are computed and proved on the pattern. Sums, products, roots,
angles and conversions are operations of the trait `Arithmetic`, on which the
library places no assumption. A contract gives the exact result as a function of
these operations, for every implementation whose operations always give the same
result for the same operands. `app/` supplies the arithmetic of the machine; that
its operations are such functions is a premise of the contracts, not proved.

## Packed result

`detect_frame` returns eleven numbers:

| index | meaning                                             |
|-------|-----------------------------------------------------|
| 0     | found (1 / 0)                                       |
| 1-8   | corners top left, top right, bottom right, bottom left as x, y in input pixels |
| 9     | type code (0 none, 1 ID card, 2 document)           |
| 10    | confidence from 0 to 1                              |

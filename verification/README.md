# yolo_binding

Post-processing for YOLOv8 object detection, verified with Verus.

`src/` is the verified library:

- `boxes`: detection boxes, the exact intersection-over-union test, the
  stable ordering by score and non-maximum suppression, one image's
  post-processing and a batch's; `nms_laws` proves what holds of them on every
  input (IoU symmetry and range, ordering, suppression keeps no overlapping
  pair and covers every dropped copy of a box, idempotence, independence
  of input order when scores are distinct).
- `wide`: 256-bit signed arithmetic for the IoU comparison.
- `metadata`: the scan that finds the metadata block in a TorchScript file,
  with a proof that a block written between the markers is read back.
- `text`, `names`: `trim` and `i64` parsing, and the class table of the
  `names` object (JSON is read by `serde_json`).
- `cli`: the detector's command line; `device`, `legacy`: small decisions of
  the loader, the launcher and the single-image detector.

Confidences are floating point in the programs; the library carries them as
order keys (`u64` values that compare as the confidences do) and the IoU
threshold as a fraction.

`app/` holds the programs: model loading and inference with `tch`, images,
drawing, the command line and the libtorch launcher.

# kropp

Crop and deskew objects from a flatbed scan. kropp finds each object in a scan, straightens it
upright, and writes one cropped file per object.

The logic of the program is a library under `src/`, written in Rust and verified with Verus: each
function states in its contract what it returns, and the proofs are checked. The program itself,
under `app/`, holds what surrounds it: command line, files, networks and floating-point geometry.

## The library

| Module | What it holds |
| --- | --- |
| `graph`, `grid` | reachability, and pixel grids as graphs |
| `components`, `ranking` | connected components, instance masks, cutouts of objects |
| `extract` | foreground from masks; merging of overlapping masks |
| `angle`, `hull` | object masks, their holes and contours; convex hulls of pixels |
| `votes` | choosing among text lines: by length, by sampling and by vote |
| `raster`, `finish`, `preprocess` | images: cropping, turning, trimming, padding; network inputs |
| `imaging` | what the `image` and `imageproc` crates compute |
| `formats`, `paths`, `output` | output formats, output names and output plans |
| `pipeline`, `providers`, `debug_overlay` | the decisions of the pipeline, and its diagnostics |
| `listing` | the order of file names |
| `text` | decimal numbers, prefixes and lists of messages |
| `laws`, `order_laws`, `image_laws`, `output_laws` | what holds of the library as a whole |

The functions of `imaging` and the declarations of `formats` that speak of the `image` crate are
believed without proof; their comments say what is claimed.

## Usage

```sh
kropp photo.jpg
kropp -i photo.jpg -o cropped.png
kropp ./inputs --output-dir ./outputs
kropp -i photo.jpg --alpha
```

A lossy input like JPEG is saved as lossless PNG unless `--allow-lossy-conversion` is given. Files
of a directory that already have outputs are skipped unless `--overwrite` is given. `kropp --help`
lists all options.

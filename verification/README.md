# reforge

Source-offset bookkeeping and report building for Solidity projects whose sources are expanded by
macros before they are compiled.

* `src/` is the library, written and proved in Verus.
  * `offsets`, `span_utils`: the edits that expansion makes, and the way back from a line, a column
    or a byte of the expanded source to the original one. `sources` holds the texts.
  * `errors`: compiler messages, brought back to the original source.
  * `snapshot`: gas snapshots: selecting, writing, checking and comparing.
  * `test`, `test::filter`, `test::run`, `test::utils`: which tests are run, the course of a run, and
    the reports on it. `results` holds what a run hands back.
  * `building`: the decisions of a build.
  * `placement`, `tracking`: where edits made in any order stand in the end, and where they take the
    bytes and lines of a text.
  * `text`, `paths`, `file_sets`, `ordered`, `arith`: the ground that the others stand on.
  * `tables`, `paint`, `json`, `junit`, `patterns`, `shown`: the calls into other crates, each with
    what is relied on.
* `tests/` runs the library.
* `app/` is ordinary Rust around it: arguments, files, and the calls into Foundry.

Functions named `law_...` are proofs of what holds across functions: that a line of the original
source is found again after expansion, in whatever order the edits were recorded, that a snapshot
file does not depend on the order of the tests, and the like.

Paths are taken as Unix has them. The percentages that a comparison shows are floating-point numbers
and are worked out in `app/`.

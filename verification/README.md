# p1689

A verified reader of C++20 module dependency files in the P1689 (revision 5)
JSON format, and a verified ordering of the rules they describe.

`src/` is the library, written in Verus and proved:

- `stream`, `number`, `string`, `json`: a byte stream with positioned errors, and
  the JSON pieces the format needs (numbers, strings with their escapes, fields,
  objects, arrays), each with an exact specification of what it reads.
- `r5`: the format's types, their builders, and the parsers of whole files.
- `message`: the text of parse errors.
- `order`: emits rules so that each comes after the rules that provide the
  modules it requires, and reports cycles and missing modules.
- `compiler`: the compiler family and the file extensions that follow from it.
- `util`: counting escapes in JSON text.
- `testing`: a small project of modules, as dependency files.
- `datagen`: random dependency files whose rules provide every module that
  they require, drawn through `rand`, `fake`, `arbitrary` and `petgraph`.

`app/` is ordinary Rust around it: `serde` support, displayable errors, the
threaded scanner that compiles sources and reads dependency files, and an
endless stream of random dependency files. `tests/` exercises the library.

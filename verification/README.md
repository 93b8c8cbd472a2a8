# openapi_edit

An editor that trims OpenAPI documents (YAML or JSON) down to the operations that are wanted. It
lists the operations of a document in groups, lets them be selected, and exports the document with
what is selected, on request without the components that nothing refers to any more. The selection
of a document is kept, so that a later export can be made from the command line alone.

* `src/` is the library, verified with Verus: reading and writing documents, grouping, filtering,
  pruning of components, saved selections and how a document has drifted from them, the state of
  the editor, and the command line. The modules that end in `_laws` state what holds across
  functions.
* `app/` is the program around it: the window, files, the network.
* `tests/` runs the library with the crates it builds on.

What is believed without proof is the handful of functions marked `external_body` in `src/codec.rs`
(`serde_json`, `serde_yaml`), `src/download.rs` (`base64`), `src/browse.rs` (`str::to_lowercase`,
`str::to_uppercase`) and `src/format.rs` (`Path::extension`), and one assumed specification in
`src/json.rs` (cloning a JSON number).

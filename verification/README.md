# cJSON utilities, verified

JSON Pointer (RFC 6901), JSON Patch (RFC 6902) and JSON Merge Patch
(RFC 7386) over an in-memory JSON tree, with the behaviour of the
`cJSONUtils_*` interface, written in Verus and proved against contracts.

Layout of `src/`:

- `json.rs`: the tree (`Json`, `Member`), its mathematical view `JsonV`,
  member lookup, detaching and appending.
- `strings.rs`: key comparison (byte order, or ignoring ASCII case),
  reference-token escaping and decoding, decimal indices.
- `pointer.rs`: reading, writing and detaching through a JSON Pointer, and
  finding the pointer to a value.
- `sort.rs`: the merge sort of object members by key.
- `compare.rs`: structural comparison of two values.
- `patch.rs`: applying JSON Patch documents, composing patches.
- `diff.rs`: generating the patches from one document to another.
- `merge.rs`: merging a merge patch, generating one.
- `alike.rs`, `round_trip.rs`, `merge_round_trip.rs`: documents alike up to
  member order, and the round-trip laws: generated patches (and merge
  patches) turn the first document into one alike to the second, which the
  comparison finds equal to it.
- `reorder.rs`: values equal up to the order of object members; comparing,
  generating patches and the `test` operation change documents no further.

Every public function states its result over the spec functions of these
modules; the `law_*` proof functions state what holds across calls.

`app/` holds what the verified library cannot: the comparison of numbers
held as floating point (the library's numbers are integers).

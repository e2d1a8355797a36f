# contract_toon

The TOON content contract: Token-Oriented Object Notation read into the JSON
data model, strictly, with every refusal naming its line and column; and the
contract that reads streams as TOON, bare or bound to a JSON Schema. A bound
contract carries its schema and is named for it; evaluating the schema
against the value read is the JSON Schema contract's work, which is not part
of this crate.

The library in `src/` is verified with Verus:

- `text.rs`: characters, whitespace, trimming, searching, and byte lengths
  as UTF-8 counts them.
- `value.rs`: the values a document reads as, and their model.
- `token.rs`: one piece of a line at a time: keys, quoted strings, numbers,
  primitives and delimited values.
- `toon.rs`: lines, array headers and the document walk, each function
  proved against a model of what the document reads as.
- `contract.rs`: media types, sniffing, reading a stream's bytes, naming a
  bound contract, what a Location's reference names, and binding the schema
  a file's bytes hold (read with serde_json).
- `laws.rs`: what holds of every document, stated over the model and proved.

`app/` holds the rest: parsed values in serde_json's model (a decimal read as
an `f64`), a refusal as a `std::error::Error`, and reading a schema file from
disk.

# circom back end, verified

The back end of the circom circuit compiler as a Verus library: what it
computes of an instantiated circuit and the files it writes, each function
with a contract that Verus proves.

- `src/encoding.rs`, `src/text.rs`: little-endian numbers and decimal text.
- `src/constraint_writers/`: the binary R1CS format (writer and reader, with
  the laws that reading what was written gives it back), the JSON, symbol,
  log and debug exporters.
- `src/dag/`: the DAG of template instances (its well-formedness is kept by
  every operation), its witness, the cost of instances and the node
  statistics report.
- `src/constraint_generation/`: names of accessed symbols, the tags that
  assignments pass on, the statistics of template instances, the structure
  of the circuit, one node per component, the flat lattice of values
  that the execution learns of each expression, and the reports filed when
  a memory access or an assignment fails.
- `src/constraint_list/`: the witness after simplification, the R1CS file
  of a constraint list (with the law that reading it gives back its header,
  constraints and witness) and its constraints as JSON.
- `src/parser/`: the version pragma, the blanking of comments and the graph
  of includes with the paths that reach files lacking the custom templates
  pragma.
- `app/`: files, printing, `BigInt` conversions and serialization around the
  library.
- `tests/`: tests on concrete values.

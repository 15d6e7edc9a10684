# scarlet

The type layer and the virtual machine of the Scarlet language, written in Verus.

- `src/types/`: inference over an arena of types (unification, generalization,
  instantiation, resolution), written annotations, the type environment with its
  scopes, module frames and watermarks, and the exhaustiveness of matches.
- `src/vm/`: value words, the reference-counted heap, arrays, big Ints and
  binaries on it, equality and hashing, the loader, and the machine that runs what
  it loads.
- `src/vm/bytecode/`: the boxed values of compiled programs, their persistent
  vectors and maps.
- `tests/`: what the library does, on concrete values.
- `app/`: what surrounds the library: the process, its output, Float arithmetic and
  the messages of a stopped run.

Contracts are stated over models: a type is a term, a heap is a record of cells and
the references held from outside it, an array is the sequence of its elements. The
functions whose names begin with `law_` state what holds across several operations.

# rokoblador

Composes a `rokoko` round chain with a LaBRADOR tail proof into a single
non-interactive argument. The prover runs the chain up to a cut, turns what the
chain hands over there into a LaBRADOR statement and witness, and proves it. The
verifier replays the chain, derives the statement on its own from public data,
compares it with the prover's, and verifies the LaBRADOR proof against it.

`src/` is the library: the ring arithmetic, the layout of the witness, the
constraints, the export of both parties, the byte form of statements and
witnesses, the checks, and the order of the calls into LaBRADOR. All of it is
verified with Verus. The modulus of the chain is a parameter throughout.

Two results stand above the rest. In `src/relation.rs`,
`law_constraints_mean_relation` shows that the constraints hold on the exported
witness exactly when the commitments open to the chain's witness and it meets
both evaluation claims. In `src/soundness.rs`, `law_export_succeeds_iff` shows
that the prover's export succeeds exactly then, given that the norm bounds of
the round are kept.

`app/` is the program around it: it runs the chain through `rokoko`, calls
LaBRADOR through its C interface, and reads and writes files.

    rokoblador [--cut K] [--out DIR]
    rokoblador check <statement.bin> <witness.bin>

`--cut K` (3 by default) picks the round of the chain to cut at. With `--out`
both statements and the witness are written to a directory, and LaBRADOR works
on those files.

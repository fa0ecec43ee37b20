# grin_block

Blocks and block headers of a MimbleWimble chain, written in Verus. The functions of the
library have contracts, and Verus proves them. Eleven small functions that call outside crates
are trusted instead: nine have a contract that is believed without proof, and of the other two,
which draw a random number and read the clock, nothing is claimed.

- `ser`, `order`: binary forms, and lists in the lexicographic order of their items' binary
  forms.
- `secp`, `hash`: commitments, blinding factors, range proofs, signatures, hashes and short
  ids. The arithmetic is that of outside crates. Sums of commitments are stated over the
  multiples of the generator that the commitments are; hashes and the checks of range proofs
  and signatures have a name each, and the contracts speak of the names.
- `transaction`, `header`, `block`, `compact`: what blocks are made of, how they are read and
  written, cut-through, compact blocks and hydration.
- `mining`: building a block from transactions and a reward.
- `validate`: validation, with the error for each rule that is broken.
- `laws`: what holds across operations, as proof functions.
- `filters`, `totals`: facts about lists that items are left out of, and about sums over
  lists.

The parameters of a chain, such as the subsidy and the weights, are values of
`consensus::ChainParams`. Private keys stay outside: the library says what a keeper of keys is
asked for a reward, and takes its answers. `app` holds what a node puts around the library.

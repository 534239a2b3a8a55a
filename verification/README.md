# Chroma

Chroma (CHR) is an independent proof-of-work blockchain. This crate is its
verified core: the rules of the chain and of the peer protocol, with contracts
that Verus proves.

    src/amount, text, bytes, serialize   text and byte formats
    src/types, u256, hash, keymap        numbers, hashes, ordered maps
    src/crypto                           signatures, addresses, proof of work
    src/tx, block, state                 transactions, blocks, accounts
    src/consensus                        targets, fork choice, mining, restart
    src/p2p                              wire formats, peers, pool, sync, node
    src/client                           what a client reads and decides
    app                                  sockets, files, timers, command line
    tests                                scenarios on concrete values

The node in `src/p2p/node` performs no I/O. Each handler takes the state and a
message and gives the next state together with the actions to perform; `app`
performs them.

Hash functions, signatures, Bech32m and hexadecimal text come from their usual
crates. What is taken on trust of each call stands in the doc comment above its
wrapper.

This build hashes with BLAKE3 only. RandomX is not in it, so it neither mines
nor validates on a network other than regtest, and says so at the start.

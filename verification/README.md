# blobsy_aggregator

An aggregator of blob segments into EIP-4844 blobs. Clients send blob segments
over JSON-RPC (`eth_sendBlobSegment`); on every new block the segments meant
for it are appended into partial blobs, which are packed with the optimized
blob coder and posted in one blob transaction to the `BlobSplitter` contract.

Layout:

- `src/` is the library, verified with Verus:
  - `submission/`: the optimized blob coder (bit packing into the low 254
    bits of each field element, optional 32-bit length prefix, header), its
    decoding, and the laws relating them (`coder_laws.rs`); the layout of the
    blob transaction (selection, padding, segment records, fees).
  - `building/`: partial blobs, the appending aggregation of one block, and
    the aggregation state that decides which segments each block gets.
  - `primitives/`, `rpc/`, `chain/`: blob segments (hash and uuid), the RPC
    form of a blob segment, and the settings of the server and subscription.
- `app/` is the service around it: the RPC server, the new-heads
  subscription, the event loops and the transaction submission.
- `tests/` exercises the library with the real outside crates.

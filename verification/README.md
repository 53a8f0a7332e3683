# substrate_dex

A decentralized exchange as a verified library: tokens with free and frozen
balances, trade pairs, a price-ordered book of limit orders per pair, and the
matching of a new limit order against the other side of the book.

## Layout

- `src/token.rs`: issuing, transferring, freezing and unfreezing tokens. Every
  holding keeps its balance equal to its free part plus its frozen part.
- `src/types.rs`: fee rates, and the book of each trade pair: a ring of nodes
  (bottom sentinel, buy levels, head, sell levels, top sentinel) stored by
  `(pair, price)`, with its shape as the invariant `LinkedList::wf`.
- `src/trade.rs`: trade pairs, limit orders, matching, cancelling. Matching
  takes levels off the other side next to the head only, at prices the new
  order accepts (a buy's walk ends at the top of the book); the books never
  cross. What matching does is stated as a trace of matches (`MatchStep`,
  `match_trace`, `trace_records`, `matched_by`): the levels from the head
  outwards, within a level the resting orders in the order they came, each
  match settled at the resting order's price and recorded as a trade, listed
  under both orders, both owners, both owners in the pair and the pair; and
  the amounts, token reports, orders, trades, lists, nonce and matched price
  that the matches leave.
- `src/codec.rs`: the byte encoding that identifiers are hashed from, and the
  BLAKE2b-256 hash (from `blake2b_simd`).
- `src/wide.rs`: 256-bit products and quotients (from `primitive-types`).
- `src/system.rs`: the origin of a call and the block values identifiers are
  made from.
- `app/lib.rs`: a limit order whose price is given as the bytes of a float.
- `tests/`: scenarios of the books, matching, cancelling, tokens and fee rates.

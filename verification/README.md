# redis_like

A small Redis-like key-value server whose core is verified with Verus.

- `src/hashtable.rs`: a separate-chaining hash map of key/value entries with
  two tables, so that growing the map moves its entries a few at a time.
  Every operation is specified over a model of both tables; proof functions
  named `law_*` state what holds of the whole map (its entries, what a search
  finds, what insertion and deletion change).
- `src/tvl.rs`: the type-length-value encoding of responses.
- `src/common.rs`: the limits of the protocol and the reading of its fields.
- `src/redis.rs`: the `get`, `set` and `del` commands, specified over the
  dictionary that the map holds.
- `src/network.rs`: the request format, the server's handling of the bytes it
  receives and sends, and the client's reading of responses.
- `src/transport.rs`: the decision of each step of a loop that reads or writes
  a whole buffer.
- `app/main.rs`: the server and client programs (sockets, polling, printing).

Integers on the wire are in the byte order of the machine, and length fields
are 64 bits wide.  The library is verified for both byte orders: each function
that reads or writes integers takes a `ByteOrder`, and the programs pass the
one that `native_byte_order` reports.

Run `app` as `server`, or as `client` followed by the strings of one request,
for instance `client set greeting hello get greeting`.

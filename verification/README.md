# simple_tcp

A small TCP server library whose message framing and client bookkeeping are
verified with Verus.

Messages travel as text ended by an end marker (`EOF` by default); an end
marker inside a message is sent escaped (`\EOF`) and turned back on receipt.

## Layout

- `src/` — the verified library.
  - `text.rs`: character sequences, `str::replace` and UTF-16 decoding as
    specifications, with executable counterparts.
  - `message_processing.rs`: the endmark, framing of outgoing messages, the
    search for the end of a message in both directions, cutting received text
    into messages, and splitting a client's buffer.
  - `server.rs`: the result of reading a client.
  - `simple_server.rs`: the registry of clients (ids handed out by a
    `fixed_index_vec::FixedIndexVec`, and reserved while a connection is
    filtered), and the step function that applies the outcome of one read
    from a client's socket.
  - `unchecked_read_write_lock.rs`: a read-write lock whose guards are taken
    without waiting; a caller that must have one tries again while the lock
    is busy.
  - `properties.rs`: laws proved of the above. Among them:
    - framed messages are read back exactly, in order, when every message
      lies in the Basic Multilingual Plane and does not end with a backslash;
    - read in pieces of any size, framed messages are delivered whole, once
      and in order, when every message is ASCII and does not end with a
      backslash;
    - splitting a client's buffer and received ASCII text loses no character
      and leaves no end marker buffered, for an endmark whose marker never
      overlaps itself and whose escape never reaches back into a preceding
      marker (the default `EOF` / `\EOF` is one); a split that completes
      loses no character either when the text lies in the Basic Multilingual
      Plane, what stays buffered is ASCII and the marker never overlaps
      itself, or when the text holds no end marker at all;
    - cutting messages one at a time, however early it stops, removes only
      whole messages with their end markers;
    - on ASCII text the searches find the first (left to right) or last
      (right to left) end marker that is not part of an escaped one.
- `app/` — the sockets, the accept and read loops, callbacks and a demo
  program, in ordinary Rust around the library.
- `tests/` — tests of the library on concrete values.

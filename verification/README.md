# nanocached

The core of a clustered in-memory cache node, written in Verus: every rule by
which a node answers, hands keys over, joins, leaves and makes up for a lost
peer is an executable function with a proved contract.

A node serves the keys that it owns. Keys are ranked over the nodes by
rendezvous hashing, and each lives on the first few nodes of its ranking. When a
node joins, the owners hand it what it comes to own; when one leaves, it hands
its keys to those that take over; when one is lost, one of the remaining owners
of each key makes the missing copy.

## Layout

- `src/` is the verified library. Nothing in it does I/O or reads a clock: a
  function takes what has been received, and the time, and says what to do.
  - `text`, `key`, `scan`: bytes, numbers, names, lines
  - `ring`: the ranking of nodes and what joins and leaves do to it
  - `message`, `response`, `command`: the frames of the protocol
  - `connection`: what a request may do and how it is answered
  - `cluster`, `node`, `membership`: what a node knows and decides by it
  - `migration`, `handoff`: handing keys to a node that joins
  - `leave`, `rereplicate`: leaving, and making up for a lost node
  - `forward`, `exchange`: passing writes on to peers, and short exchanges
  - `registration`, `roster`: registering with discovery servers
  - `http`, `metrics`: the operations endpoint
  - `lifecycle`, `limits`, `fault`, `identity`, `tls`, `pem`, `trust`: the rest of a node
- `tests/` runs the library on concrete values.
- `app/` puts the library on the network: sockets, tasks, TLS and signals. The
  store and the request parser are supplied by the program that embeds it.

Functions named `law_...` state what holds of several functions together.
Times and spans are nanoseconds in a `u128`.

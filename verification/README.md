# ruknet

A RakNet-compatible peer whose protocol logic is verified with Verus.

## Layout

- `src/proto/`: the wire format. Readers and writers of integers, strings,
  addresses, acknowledgement ranges, fragments and datagrams, each with a
  contract over a byte-level model and a proof that reading gives back what
  writing wrote.
- `src/reliability/`: the reliability layer. The receive window, the
  retransmission cache (`cache_laws.rs` states what it keeps between
  calls), fragments and their reliability classes, the integer rules of
  both congestion controllers (`SlidingWindowCore`, `UdtCore`), and `Layer`, which turns application
  messages into datagrams and datagrams back into messages, and records
  every call it makes to its congestion controller, with the arguments and
  the answer. `delivery.rs` proves that a short message of any class sent
  by one fresh layer is delivered by another.
- `src/conn.rs`, `src/peer.rs`, `src/messages.rs`: connections and the
  decisions a peer takes on each packet, tick and request, written as
  functions from state and event to next state and reply.
- `app/`: the asynchronous peer on tokio (sockets, timers, shared queues)
  and the floating-point parts of the congestion controllers, around the
  library's integer rules. `Peer` runs the window-based controller by default;
  `Peer::<UDT>` runs UDT.
- `tests/`: tests on concrete values for the library.

# GooBus

A peer-to-peer network of value publishing and subscribing, loosely inspired by
the Ivy software bus. This is a demonstration: it is not meant to be used in
production code.

`src/` is the bus itself, written in Verus and verified. It holds no sockets and
no callbacks: a node is told what happens and says what is to be sent to whom.

- `bus.rs`: a node, `GooBus`, and everything that can happen to it.
- `state.rs`: what a node knows, `GooBusState`.
- `model.rs`: the same as mathematical values, over which the contracts speak.
- `laws.rs`: what holds of a node through any course of events.
- `message.rs`, `frame.rs`: the messages and how they are laid out on a
  connection.
- `peer.rs`: the peers, in an `alot::Lots`, and what is trusted of that crate.
- `names.rs`: maps from names.
- `roster.rs`, `target.rs`: what the user interface shows and takes.

`app/` is the program around it: the connections, the encoding of messages and
values, the dynamics that are published and observed, and the user interface.
Upon launching, it asks for a name and a bind address. Once launched, the left
hand side allows connecting to the address of another client.

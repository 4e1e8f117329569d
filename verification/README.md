# cryonet

A mesh of nodes that find routes to each other over links, and a full mesh of direct, sealed
connections between them that carries the packets of network devices.

- `src/` is the library, verified with Verus: the routing protocol (`igp`), forwarding (`mesh`), the
  full mesh and its key changes (`fullmesh::fm_ice`, `fullmesh::peers`), framing and sealing
  (`fullmesh::frame`, `fullmesh::conn_ice`, `fullmesh::conn_rustrtc`), the devices
  (`fullmesh::tap`, `fullmesh::tun`), the registry, the control interface (`uapi`, `ctl`), the links
  to servers (`connection`) and the network of named peers (`net`, `rtc_shake`). It does no I/O: each
  part takes events and gives actions.
- `app/` is the program: sockets, devices, timers and encodings around the library. `cryonet node`
  runs a node, `cryonet ctl` asks a running one.
- `tests/` runs the library on concrete values, with the real cryptography, candidate and packet
  crates.

Time is a number of nanoseconds on a monotonic clock, and is passed in. What outside crates compute
is declared beside the code that calls them, with a comment that says what is relied on.

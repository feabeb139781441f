# riff

A library for secure multiparty computation over a prime field, with a
coordinating server and clients that share, compute on and open secrets.

`src/` is verified with Verus:

- `shamir`, `lagrange`: Shamir sharing (a polynomial evaluated at each party's
  number) and reconstruction by Lagrange interpolation at 0, with the proof that
  opening the shares of a polynomial gives back its constant term.
- `secret_share`, `crypto_provider`: arithmetic on shares (constants, sums,
  Beaver multiplication) and the values a crypto provider hands out.
- `server`, `handlers`, `hooks`, `intervals`, `socket_server`: the server's
  computations, party ids (tracked as free intervals), public keys and mailboxes.
- `client`, `client_handlers`, `client_protocols`, `mailbox`, `crypto`: the
  client's state, what it does with each message, the steps of sharing, opening,
  resharing and preprocessing, its outgoing mailbox and the sealing of shares.
- `common`, `helper`: numbers and their texts, modular arithmetic and the
  extended Euclidean algorithm.

`app/` holds the HTTP and WebSocket plumbing, the threads and loops that wait for
messages, and JSON conversion. The steps of each protocol (setting up a sharing or an
opening, reading what arrives, choosing ids, combining shares) are library calls;
`app/` strings them together, waits between them, and checks the conditions under
which it calls them.

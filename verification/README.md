# home_proxy

The verified core of a home proxy: traffic to a peer is spread over ten UDP holes through NATs
(slots), every packet is signed and masked, and the receiver restores the order of TCP flows.

- `src/` is the library, written and proved in Verus. It makes the decisions and holds the
  formats that it reads and writes byte by byte: the data packets and their signatures, the reordering buffer, the choice of holes, the
  life of a slot, STUN, the records that peers exchange, IP packets, the routes and addresses of
  the tunnel, and the settings of the programs.
- `tests/` runs the library.
- `app/` holds the programs around it: sockets, the TUN device, the MQTT connection, the protobuf
  messages other than data packets, logging and the command lines. They carry out what the library decides.

| Modules | What they are about |
| --- | --- |
| `auth`, `seal`, `codec`, `xor`, `crypto`, `guid`, `link_id` | secrets of pairs, signatures, replay window, masking |
| `wire`, `varint`, `pool`, `bytes` | data packets and their buffers |
| `reorder` | restoring the order of numbered packets |
| `multilink` | slots, live holes, the choice of a hole, counters, control |
| `punch`, `sweep`, `port_utils`, `stun`, `endpoints` | punching a hole, and what comes through it |
| `rendezvous`, `broker`, `vps`, `address_text` | finding the peer |
| `tun`, `relay`, `client`, `server`, `net`, `subnet` | IP packets, bridges, routes |
| `addresses`, `book_text`, `dns`, `text_map`, `text_sort` | addresses in the tunnel |
| `settings`, `config`, `paths`, `text`, `label`, `syslog`, `bench` | the programs |

Laws that relate several functions are public proof functions whose names start with `law_`.
What is believed of other crates stands in `crypto` and `guid`. Times are nanoseconds.

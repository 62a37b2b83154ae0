# micromodem

Finds a proxy served by an Android phone over USB/RNDIS or Wi-Fi tethering,
and configures the MicroModem gateway that routes through it.

The library (`src/`) holds the logic, each function with a contract proved by
Verus:

- `text`: the parts of `str` that the rest reads text with (trim, split,
  lines, words, decimal numbers), stated over `Seq<char>`.
- `ipv4`: dotted-decimal addresses, their parsing and printing, private ranges.
- `interfaces`: interface scoring, the output of `ip addr` and `ip route`.
- `targets`: which hosts and ports to probe, each endpoint once.
- `probe`: the SOCKS5 / HTTP CONNECT handshakes as a state machine; the caller
  owns the sockets, performs each action and hands back what came of it.
- `report`: JSON and human-readable output.
- `config`: the gateway settings file, its checks, and the read-back of what
  was saved.
- `cli`: the command line.
- `dashboard`: the dashboard's state and what its buttons do to it.

`app/` is the program around it: process and socket I/O, threads, files, and
the egui window.

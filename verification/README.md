# zero_copy_log_parser

A verified library (Verus) behind a handful of small command-line tools, and
the front end that runs them.

- `src/log_line.rs`: the log line format
  `<timestamp> <LEVEL> token=<value> message=<text>`: splitting a line into
  fields borrowed from it, validation, trailing-whitespace normalization,
  token redaction, and the processed line with its field offsets and the
  line printed for it (its message offset is the documented one: one past
  the start of the `message=` field).
- `src/generate.rs`: synthetic log generation from template lines (timestamps
  shifted by the entry number, tokens and messages tagged with it).
- `src/cli.rs`: the arguments of the parser and of the generator.
- `src/packet.rs`: Ethernet/IPv4/TCP/UDP header parsing, per-connection and
  per-host traffic statistics, and the traffic summary.
- `src/traffic_light.rs`, `src/lookup.rs`, `src/sequences.rs`, `src/ids.rs`,
  `src/bench.rs`: a traffic-light state machine, user and port lookups, sums
  over sequences, identifier types, and benchmark workloads.
- `src/text.rs`: UTF-8, search, decimal printing and integer parsing helpers.

Every function in `src/` carries a contract, and Verus proves each of them
but those of the three wrappers around std calls that vstd does not specify
(`String::push`, `Instant::now`, `Instant::elapsed`), which it takes on trust.
Where an outside call decides the outcome the contract says what holds
whatever came back: `run_sequential` promises that every run number below `invocations` was
run, and nothing of the duration it reads from the clock. The laws of the
formats are proof functions beside them: fields split back into what they were
assembled from; redaction and trimming are idempotent; redaction and the whole
processing of a line forget the token value beyond its length; generated lines
parse and validate again; shifting a timestamp by `a` and then by `c` seconds
is shifting it by `a + c`; VLAN tags are transparent; distinct connections are
counted apart; and recording a packet keeps the per-connection and per-host
counters adding up to the byte total.

`app/` holds what cannot be verified: file and network I/O (libpcap capture,
Ctrl+C handling), threads and Rayon, process spawning and printing.

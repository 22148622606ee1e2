# Sederial

A lightweight DNS forwarder for split-DNS networks. It forwards UDP and TCP
queries to different DNS servers by domain suffix. The most specific matching
route wins; other queries use the default servers.

```toml
listen = "127.0.0.1:5300"

[default]
servers = ["1.1.1.1", "1.0.0.1"]

[[route]]
domain = "example.test"
servers = ["192.168.100.10"]
```

This sends queries for `example.test` and its subdomains to `192.168.100.10`.
IP addresses without a port use port 53.

## Layout

- `src/` is the library, verified with Verus: the DNS protocol boundary (`dns`),
  suffix routing (`routing`), configuration (`config`, `document`, `address`),
  the walk through an upstream group (`upstream`), client requests
  (`forwarding`), frames and deadlines (`transport`), diagnostics (`logging`),
  the job queue (`pool`), and the command line (`cli`).
- `app/` is the program around it: sockets, threads, signals, files and the
  clock. It performs what the library asks for and hands back what happened.
- `tests/` runs the library; whole requests run against simulated resolvers on a
  simulated clock.

What is not proved is stated at each item that calls into the `toml` crate or
into the standard library without a specification of its own.

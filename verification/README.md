# check_inet

Layered internet-connectivity diagnosis. The `check-inet` command probes the
default gateway, a public address and an application target; when one fails it
walks a ladder (local IP, gateway, internet, DNS, captive portal, application)
and exits with the number of the first broken stage.

Layout:

- `src/` — the library, verified with Verus: the diagnosis ladder (`diag`),
  the reading of each probe's result (`checks`, `net`, `check`), DNS queries
  and resolver configuration (`dns`), routing-tool output (`gateway`), target
  text (`target`), IP address text in both directions (`addr`), the retry
  decisions (`run`), text helpers (`text`) and the laws that span functions
  (`laws`).
- `app/` — the command: arguments (clap), sockets, HTTP (ureq), processes,
  threads and printing. It hands plain values to the library and prints what
  the library returns.
- `tests/` — tests of the library on concrete values.

# workshop

A collection of small tools whose rules are proved with Verus.

| Module | What it decides |
| --- | --- |
| `dns` | whether a change of zone files may pass: tokens, records, includes, findings, report |
| `firewall` | which packets two policies treat differently, and which rules can be reached |
| `refund` | what to refund for returned goods, from scans, corrections and payments |
| `coldchain` | when freezers were out of range, whatever the order of the readings |
| `dock` | which door a delivery gets, with holds, retries and expiry |
| `highlight` | tokens of a document, kept up to date under edits |
| `kiosk` | who has which item of a lending desk, now and on any day |
| `support` | how found support cases are ranked, shown and recalled |
| `midi` | which events a block of samples gets, and how plans are handed over |

The rest of `src/` is shared: characters and text, numbers, addresses, sorting and
sequences. Every executable function has a contract; properties that span several
functions are public proof functions, most of them in the `laws` modules.

Lines of a cold-chain archive are parsed by `serde_json` behind three trusted
functions of `coldchain::wire`.

`app/` is the command line: files, records from and to JSON, threads, timings and
floating-point scores. `tests/` runs the library on concrete values.

# AIPoint Share, desktop core

A desktop app that sends files and folders to other devices on the same
network: several TCP streams at once, straight from disk to disk, and folders
as they are. Bytes that come from a web peer go through the same receive
sessions.

`src/` is the core, verified with Verus. `app/` is the part around it: windows,
tray, sockets, threads and files. It carries out what the core decides.

| module | what it decides |
| --- | --- |
| `path` | which path a peer's text stands for, and which name is free for it |
| `session` | where the files of an incoming transfer go, and when it is complete |
| `state` | which session a number or a token leads to |
| `token` | what a session's secret looks like |
| `receive` | what the receiving end of a connection does next |
| `plan` | how files are cut into segments and spread over streams |
| `send` | what a sending stream does next, and how a transfer ends |
| `arrival` | (proofs only) that what is sent is what is stored |
| `wire` | the bytes of a segment's header |
| `net` | under which addresses this device can be reached |
| `listing` | what a folder looks like before it is sent |
| `settings` | what the user can set |
| `join` | how a name is joined to a directory of this device |
| `blocks`, `sort`, `number`, `text` | what the others build on |

Functions named `law_...` state what holds across several functions.

What is not proved but believed: `String::push` of the standard library
(`text`), the platform's path separator and the user's directories
(`settings`, over `dirs`), the network interfaces and how their
addresses are written (`net`, over `if-addrs` and the standard library),
random numbers (`token`, over `rand`), and the JSON text of a header (`wire`,
over `serde_json`). Each of these is marked where it is declared.

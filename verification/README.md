# vpnmux

vpnmux keeps a chosen set of network providers, currently Mullvad and Tailscale, working
side by side. A daemon brings the system to the desired set every couple of seconds; the
command line records the desired set and reads the status back.

Everything that decides, parses or formats is in `src/` and verified with Verus. Commands
go through the `Runner` trait: a procedure's contract says which commands it issues and
what it returns for every sequence of replies. Files are plain values: a procedure takes
the text that was read and returns the `FileWrite` that is to be made.

| Module | What it holds |
|--------|---------------|
| `text`, `number`, `ip` | text as character sequences, whole numbers, IP addresses |
| `types` | providers, sets of providers, errors |
| `runner` | the seam for commands, and a scripted runner for tests |
| `provider`, `mullvad`, `tailscale`, `nft` | what drives each provider, and Mullvad's table |
| `dns`, `route`, `resolver` | who manages `resolv.conf`, the gateway, filling the gap |
| `coexistence`, `reconcile` | the truce between active providers, one convergence pass |
| `state`, `fsutil`, `json` | the state files and the status as JSON |
| `cli`, `daemon` | what `set`, `status` and a tick of the daemon decide |
| `paths`, `log`, `sys` | programs and files, log lines, the group database |

`app/` is the program around the library: arguments, files, processes and signals.

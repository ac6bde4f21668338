# fghj

Local development orchestration for user flows. A workspace is a directory of git
checkouts, each with an `fghj.yaml` that says which services it has, what they
depend on and which user flows they serve. `fghjd` runs the services in Docker,
gives each a name under `*.fghj.internal` and serves it there over HTTPS.

The library under `src/` is what decides: every function in it is verified with
[Verus](https://github.com/verus-lang/verus) against the contract in its header.
The programs under `app/` read, write and wait, and ask the library what to do.

| Modules | What they hold |
| --- | --- |
| `resolver` | the dependency graph of a workspace, its flows and its repos |
| `state`, `action`, `reducer`, `actor` | what is known of a workspace, and how requests and reports change it |
| `effects` | what has to be done outside when a state has changed |
| `daemon`, `runs`, `query`, `daemon_log` | the workspaces that are served, the answers of the control API, the on/off switch |
| `dns`, `proxy`, `ca`, `raw_net`, `hosts_file`, `sidecar` | how names are answered, routed, certified and made reachable |
| `docker`, `downloads`, `workspace` | what Docker and git are asked to do |
| `persistence` | what outlives the daemon, and what is left of it at the next start |
| `cli` | the decisions of the command line |
| `strmap`, `text`, `lines`, `number`, `paths`, `seqs`, `same` | what the others are made of |

What the library promises as a whole stands in the public proof functions whose
names begin with `law_`: that a refused request changes nothing, that every raw
name has an address of its own and keeps it, that taking the daemon's lines out of
a file gives the file back, that a stored run reads back, and others.

Calls into other crates (`rcgen`, `x509-parser`, `pem`, `rustls-pemfile`, `sha2`)
and into std go through a few wrappers in `ca`, `raw_net` and `text`. Their
contracts are taken on trust; the comment above each says what is claimed.

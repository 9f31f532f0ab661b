# fedramp-aion

Watches FedRAMP's machine-readable sources, decides what changed, and keeps the
result in a signed chain. The library under `src/` holds every decision, with a
contract that Verus proves; `app/` is the command line around it.

| module | what it decides |
|---|---|
| `text`, `table`, `json` | strings, ordered maps and JSON documents over mathematical models |
| `canon` | canonical form, digests, hexadecimal, substance projection |
| `sources`, `bundle` | the source registry, snapshots, and the payload that is signed |
| `diff` | what moved, per source, and how loud that is |
| `plan`, `report` | whether to sign a version, and what to say about it |
| `obligations` | which rules apply to a profile |
| `receipt` | sealing an action against the obligations in force, and verifying it |
| `validate` | checking a package against the signed schemas, offline |
| `mcp` | answering agents with citations |
| `commands` | what each command decides and prints |
| `outside` | what is taken from other crates, and what is claimed of it |

Public proof functions named `law_…` state what holds across functions: that a
rerun against the same pins is a no-op, that a payload and a statement read back
as written, that a valid receipt is the operator's and cites only what the
ruleset obliges, that every answer cites its source, and the like.

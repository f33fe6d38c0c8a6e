# spotless

Finds what is taking up space on a Mac, and decides what may be removed.

The library in `src/` holds the rules and the decisions, and its behaviour is
stated in contracts that Verus proves. It does not touch the filesystem: what
is on disk comes in as values or through the questions of `disk::Disk`, and
removal is left to a `cleaner::RemovalBackend`. `app/` is the program around
it: arguments, the terminal, the disk, the Trash.

| Module | What it decides |
|---|---|
| `safety` | whether a path may be removed: inside an approved root, outside every denied one |
| `cleaner` | removing a list of items, each only after the guard lets it through |
| `rules`, `document`, `builtin` | reading the cleaning rules out of TOML, and the rules that ship |
| `scanner`, `disk` | what each target holds, every byte counted once |
| `devscan`, `patterns` | which directories are build artifacts |
| `dupes`, `buckets` | which files hold the same bytes |
| `usage`, `mounts` | where the space went, without leaving the volume |
| `rewalk` | that forgetting what was deleted comes to the same as measuring again |
| `apps`, `orphans`, `info` | what apps leave behind, what is left of apps that are gone, and what bundles say they are |
| `trash` | what is in the Trash, and emptying it |
| `backend`, `targets`, `cmd`, `cli` | what the commands do, and when |
| `tui`, `render` | what a key does in the terminal UI, and what is shown |
| `ui`, `report`, `double` | how sizes and outcomes are worded |
| `paths`, `text`, `order` | paths, texts and sorting |

A backend says through `RemovalBackend::accepts` which paths may be handed to
it. The contracts of the removing functions ask for no more than what they
need, so each shows the bounds of what it can remove: pruning duplicates only
regular files inside the folder, cleaning artifacts only recognised ones,
emptying the Trash only its entries, and a dry run nothing at all.

Paths are Unicode text. Sizes are shown as double precision arithmetic gives
them, which `double` works out on integers.

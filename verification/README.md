# exzet

Run the tasks of a plain-text task file (the *exfile*) on your own machine or
on servers running `exzed`, with the workspace synced by content hash or
served live over NFS, output streamed back line by line, and the task's exit
code as the client's.

`exzec` is the client and `exzed` the daemon; both are one program, chosen by
the name it runs under.

## Layout

- `src/` — the library, verified with Verus:
  - `text.rs`: character-level text handling (trimming, splitting, lines,
    numerals, code point order, sorting);
  - `exfile.rs`: reading an exfile into tasks, ordering a task after its
    dependencies, `.env` files, finding the exfile of a directory;
  - `proto.rs`: frames on the wire, cleaning relative paths, token
    comparison, the tunnel of a live workspace;
  - `cas.rs`: BLAKE3 content hashes, the blob store and the workspace scan;
  - `cell.rs`: what a rank runs (command line, environment, `docker run`
    arguments, cgroup limits) and how exits, interrupts and deadlines make
    the job's exit code;
  - `client.rs`: the client's decisions (servers, ranks per server, line
    buffering of output, the stream of a job, the command line);
  - `daemon.rs`: the daemon's decisions (which jobs and manifests it takes,
    outputs, job lists, the command line and the texts it writes);
  - `nfs.rs`: the file ids of the live workspace's NFS server.
- `app/` — the programs around the library: sockets, processes, files,
  the NFS server and the terminal.
- `tests/` — tests of the library on concrete values.

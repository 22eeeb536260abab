# p2p_file_system

A node of a small peer-to-peer file sharing network. A file is cut into
chunks; a node looking for a file floods a search over UDP to its
neighbors, nodes that hold chunks answer, and the node downloads the chunks
over TCP, fastest peers first, and saves the file.

- `src/` is the library, verified with Verus: chunk geometry and
  reassembly (`chunker`, `chunk_creator`), chunk files in a node's folder
  (`file_utils`), the configuration and metadata parsers (`descritor`,
  `metadata_parser`, on top of `text`), the messages (`message`), the node's
  state (`node`) and its decisions on each message and during a download
  (`protocol`).
- `app/` is the program around it: files, sockets, threads, the command line,
  and the byte encoding of messages.
- `tests/` runs the library on concrete values.

# stream_fs

A file system kept inside a single file, in four layers:

1. `file_layer`: one file of bytes with a short header (`MemoryFile` keeps it in
   memory).
2. `blocks_in_file`: blocks of one size, a list of free blocks, header slots for
   the layers above, and a cache of blocks.
3. `streams_from_blocks`: streams of bytes, plain or compressed, each stored as a
   pyramid of redirector blocks over data blocks, and a table of all streams.
4. `sfs`: directories, paths, and streams that are open with a head position.

Each layer is a trait with a mathematical model (`FileLayer`, `BlockLayer`,
`StreamLayer`; `World` in `sfs_model` for the file system), and the contracts of a
layer speak of the model of the layer below. `faults` counts the calls that the
medium failed and those that a layer broke off because a number ran out; where
neither happened, a contract says exactly what the call did.

What a file of unknown origin holds is not trusted: it can be opened and checked
(`verify`), and `examine` follows every stream to its last block. Where it finds
nothing amiss, the file system is consistent and every other operation can be used.

Laws that span calls stand in `path_laws` (what paths lead to after a change),
`dir_laws` (what directories list then), `dir_entries` (what directories are written
as), `tree_shape` (the directories stay a tree, and a tree passes `verify`) and
`reopen` (what was closed is found again).

`cli`, `bench` and `transfer` hold what the command line tool decides and does;
`header_sections`, `blocks_from_files` and `streams_from_files` hold the rules of
other ways to store a header, blocks or streams. `app/` holds the tool itself with
its input and output, and an interface for C.

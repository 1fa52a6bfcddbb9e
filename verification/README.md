# initfs

A read-only initial filesystem image that a bootloader loads into memory and
the kernel reads in place, together with the kernel's bookkeeping for user
locks and inter-process messages and the line editing of the user shell.

- `src/types.rs`: the on-disk records (header, inode, directory entry), their
  little-endian integer fields, and the layout rules of a valid image.
- `src/record.rs`: copying fixed-size records out of an image.
- `src/lib.rs`: `InitFs` and the inodes, files, directories and entries read
  through it, with the laws that connect them.
- `src/task.rs`: the lock table and the message channel.
- `src/shell.rs`: splitting a command line into words, choosing the command,
  and the byte-by-byte editing of the shell and of `touch`.
- `app/main.rs`: the shell run over the host's standard input and output.

Everything under `src/` is verified with Verus, except for three trusted
wrappers whose contracts Verus takes on faith: `record::copy_from_bytes`
(over `plain::copy_from_bytes`) and `shell::push_char` and `shell::pop_char`
(over `String::push` and `String::pop`).

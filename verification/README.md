# asahi_m4

The logic of a driver for the GPU of the Apple M4, as a library whose functions carry contracts that Verus
proves. The library performs no I/O: it decides, and answers plans of what to store, which registers to set
and which messages to send.

- `src/` holds the library.
  - Translation: `tables`, `walk`, `pgtable`, `pgtable_laws`, `prot`, `mem`.
  - Address spaces: `space*` and `ranges` for clients, `fwspace*` and `stampmap` for the firmware, `fwshare` for
    pages that both see, `mapping` and `vm_map` for what a client binds.
  - Objects of the firmware: `bytes`, `fw`, `queue`, `render`, `operands`, `compute`, `cdm`, `stamp`, `ring`.
  - The board: `platform`, `power`.
  - Start: `boot`, `bootmap`, `boot_space`, `bootclient`, `device`.
  - The running session: `lanes`, `works`, `contexts`, `slots`, `tvb`, `timestamps`, `arena`, `provision`,
    `pools`, `growth`, `admission`, `flights`, `launch`, `submit`, `submit_compute`, `jobs`, `publish`,
    `flush`, `events`, `retire`, `session`, `notify`.
  - Clients: `client`, `client_stamps`, `commands`, `cmdbuf`, `params`, `submission`, `engine`.
- `tests/` runs the library on concrete values.
- `app/` is the kernel module around it: registers, caches, pages, user memory, scheduling, and the few
  floating-point numbers that the firmware wants.

Encoders state their result as a list of fields that are laid over zeros (`bytes::image`). Plans state it as
the list of what is stored, in order (`plan::stored`). Translation trees are stated as the entry of every
page, so that what an operation leaves alone is part of its contract.

# Telekin

Remote desktop and file transfer for robots, over QUIC. The robot runs the host (`chassis`),
which captures its screen, encodes it, serves its files and applies input; the operator runs
the viewer, which shows the screen, forwards keys, pointer and clipboard, and copies and edits
files without starting a video stream.

The library under `src/` holds everything that decides or computes, with contracts that
[Verus](https://github.com/verus-lang/verus) proves. The program under `app/` is what is left:
sockets, disks, the X server, the window and the encoder's raw interface.

| Modules | What they settle |
|---|---|
| `proto` | messages, limits, framing, kinds of streams |
| `session`, `transfer`, `users`, `robot_files`, `stream`, `capture`, `cpu`, `input`, `xkeys`, `clipboard` | the host: sign-in, what a message comes to, uploads, accounts, paths, pacing, screen changes, typing on any layout |
| `viewer`, `reorder`, `file_session`, `files`, `panes`, `ui`, `forward`, `keymap`, `theme`, `update`, `cli` | the viewer: settings, frames in order, folder copies, the panes and the editor, connecting, what input is forwarded |
| `pixels`, `codec`, `device` | scaling, colour conversion, and OpenH264 with a record of what it was given |
| `transport`, `discovery` | fingerprints and pinning, robots found on the network |
| `text`, `listing`, `sort`, `rounding` | text, directory listings, stable sorting, rounding as floating-point numbers do |

Public `proof fn`s state what holds across functions, such as that frames leave the reorder
buffer in order and none is lost, that a restarted stream is shown from its first frame, that
nothing stays pressed once a session ends, that a copied folder keeps its shape, and that an
account file reads back as it was written.

What comes out of other crates (OpenH264, Argon2, SHA-256, certificates) is trusted: the few declarations
that say what is believed of them carry `external_body` or `assume_specification`, each with a
comment on what it claims.

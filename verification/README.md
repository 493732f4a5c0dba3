# call_to_exist_gui_lib

Readers for the archive and asset formats of a game: CPK archives (with their
UTF tables, obfuscated packets and CRILAYLA compression), PAC archives, BC7
textures and BML models, together with the folder tree and file table that a
front end shows for opened archives.

The library (`src/`) is verified with Verus: every public function states
what it returns as a function of its input bytes, and the laws of the tree
and table builders (no node or line added twice, keys kept unique, an
extraction writing as many files as it announces) are proved there.

- `cursor`: reading integers and strings from a byte buffer.
- `packet`, `utf`, `crilayla`, `cpk`: CPK archives.
- `pac`: PAC archives.
- `texture`: BC7 textures to RGBA and PNG (decoding and encoding are done by
  `bcdec_rs` and `image`).
- `bml`: BML models.
- `tree`, `extract`, `decimal`, `hash`: the archive tree, extraction plans,
  decimal keys and the string hash.

`app/` is a command-line front end: it reads and writes files, and converts
between the library's types and JSON (or Python objects).

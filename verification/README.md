# rmbrowser

The verified core of an e-ink web viewer for reMarkable tablets.

`src/` is the library, verified with Verus:

- `types` — geometry (`Point`, `Rect` and its covering union), devices, panel kinds and
  framebuffer formats (grey packing for Y8 and RGB565).
- `display` — waveform modes and the refresh-mode state machine (hysteresis into fast
  mode, text-aware waveform choice, ghost budget, settle), with its laws over sequences of
  updates.
- `hal` — the display-backend seam and what a backend computes before it talks to the
  panel: the kernel update rectangle and the EPDC waveform parameters.
- `nav` — link-drawer scoring and best-candidate choice; URL page numbers.
- `bookmarks` — Netscape bookmark HTML import into a folder tree.
- `pixel` — the RGBA → greyscale pipeline: gamma-correct luminance, ordered (Bayer) and
  Floyd–Steinberg dithering, packing into the panel format.
- `overlay`, `input`, `engine`, `text` — viewport geometry, button ids, the engine's link
  model, and the character-sequence helpers the parsers share.

`app/` holds the program around it: the floating-point update-rate average that feeds
the state machine, virtual-button placement, input intents, the render-engine trait, and
the reMarkable 2 backend over `libremarkable`.

`tests/` exercises the library from outside.

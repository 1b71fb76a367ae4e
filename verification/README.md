# koboterm

A terminal for Kobo e-readers: an on-screen keyboard, saved machines, SSH
sessions, and a refresh scheduler that keeps e-ink ghosting and flashing in
check.

The crate is split in two:

- `src/` is the library, verified with Verus. It holds the decisions and the
  data: the touch packet parser, the terminal grid and its vt100 snapshot, the
  refresh scheduler, the cell-grid UI (home screen, add form, keyboard,
  popups, top bar), the pixel chrome layout and its integer primitives
  (fills, blends, Bresenham lines), the BDF and Unifont `.hex` font reader,
  the panel geometry, the pairing server's HTTP handling, the hosts and
  settings file formats, and the session logic (screen split, swipes, key
  release timing, shell fallback, command line).
- `app/` is the program around it: FBInk and the framebuffer, the touch
  device node, sockets, pseudo-terminals and the SSH client, files, and the
  antialiased drawing that needs floating point.

Fonts are read at run time from `fonts/` in the data directory
(`/mnt/onboard/.adds/koboterm` on a Kobo), the symbol glyphs from
`fonts/unifont-symbols.hex` merged in; the pairing script template is
`install-host.sh` there.

Swipe-to-scroll is not carried out: the terminal gives no scrollback view or
mouse-wheel reporting to drive, so the session ignores swipes (`swipe`
decides what one would be).

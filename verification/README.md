# garou

A terminal image viewer for the Kitty graphics protocol: it lists the
images of a directory tree in natural order, shows one at a time with a
sidebar of the tree, a header and a status bar, and redraws only the tiles
of an image that changed.

The library in `src/` holds the viewer's logic with Verus contracts and
proofs:

- `text`, `natural`, `paths`, `sorting`, `listing`: characters and
  strings, natural ordering, path names, sorting the image list and
  building the list and the sidebar tree from directory listings;
- `config`: the settings, their defaults and the colour syntax;
- `filetree`: the sidebar tree, its cursor and expanded directories;
- `viewer`, `session`: the state machine of key presses, mouse events,
  redraws, preview requests and read-ahead;
- `cache`: the LRU image cache and what is known per image;
- `frame`, `render`, `kitty`, `pipeline`: decoding, scaling and PNG
  encoding through the `image` crate, frame differencing, the Kitty
  commands, upload media and image preparation (what is sent, at which
  size, and what is kept for differencing);
- `screen`: the header, status bar, sidebar rows, overlay and layout.

`app/` is the program around it: the command line, the configuration
file, the file system, the terminal, the worker thread, and the
floating-point arithmetic that picks the size an image is scaled to.

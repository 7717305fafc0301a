# drag_translate

When a file is dragged into a terminal window, the terminal pastes the file's path. In a terminal
that is attached to a virtual machine that path means nothing to the guest. This library reads the
terminal's input, finds bracketed pastes, and replaces each path of the host by the one under which
the guest sees the file: through a shared directory, or through a copy in a directory for dropped
files.

- `src/` is the verified library.
  - `translator` drives everything. `DragTranslator::process` takes input and returns the bytes to
    forward, or a question about the host's file system; `DragTranslator::resume` takes the answer.
  - `paste` recognises pastes byte by byte, `tokenize` splits them into names, `path` reads paths,
    `shares` maps them into the guest, and `staging` plans the copies of dropped files.
  - `laws` states what holds of the library as a whole.
- `app/` answers the questions with the files of a real host.
- `tests/` runs the library.

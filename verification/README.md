# ghostty_terminal

The logic of an embedded terminal, verified with Verus.

- `src/` is the library. It reads a program's output for modes, titles,
  clipboard writes and queries, answers the queries, keeps the text of the
  screen, finds links in it, decides how it is styled, and turns key and mouse
  events into bytes. Contracts are stated over mathematical models of the
  stream, the session, the screen and the view. Laws that span several functions
  are public proof functions named `law_...`.
- `tests/` runs the library.
- `app/` is the host: the emulator behind its C interface, and the widget that
  draws the terminal with GPUI.

What is trusted rather than proved: the Base64 decoder, the width of a
character, the lossy reading of UTF-8, the machine's byte order, and
`String::push`. Each is declared with a doc comment where it is used.

# clipboard_sync

Keeps the clipboards of several Wayland and X11 displays in step: whatever is
copied on one display can be pasted on the others, with all its MIME types where
the backends allow it.

`src/` is the verified library. It decides everything; it never touches a display.

| module | what it holds |
| --- | --- |
| `data` | the multi-MIME payload: its text, comparison, merging |
| `mime` | classes of MIME types and X11 targets, priority order |
| `clipboard` | the `Clipboard` trait |
| `wayland`, `x11`, `image` | what each backend asks for and how it offers a payload |
| `fetch` | payloads out of replies |
| `probe`, `discovery` | which displays have a usable clipboard |
| `sharing` | whether two clipboards have one backing store, step by step |
| `duplicates`, `setup` | one clipboard per backing store, with a common start |
| `watch` | noticing a change and spreading it |
| `laws` | what holds of payloads as a whole |
| `text`, `words`, `decode`, `error` | what the others are built on |

Backends take the operations that reach a display as closures, and their
contracts speak of whatever those operations may have answered. Laws are public
proof functions whose names start with `law_`.

`app/` holds the other side: connections, commands, environment, sleeping and
logging.

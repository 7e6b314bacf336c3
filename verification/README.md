# macrdp

The decision logic of a remote-desktop (RDP) server for macOS, verified with Verus, and
the program around it.

- `src/` is the library. Its functions state what they return or change, and Verus
  proves it. Time, the environment, the display system and the network come in as plain
  values and go out as plans. Of the two cells that threads share (`ClickSignal` and
  `SharedDesktopSize` in `capture`) the contents are not stated.
- `tests/` runs the library on concrete values.
- `app/` is the program: it reads the command line, the environment and the files, serves
  connections, and performs what the library plans. It serves a still picture and checks
  no password against the system; capturing the screen, video, pointers, redirected
  devices and pasting have their logic in the library and no driver here.

| Module | What it decides |
|---|---|
| `auth_guard` | which peers are served: rate limit, lockout, audit log |
| `capture` | what of the screen is sent, and when |
| `config`, `startup` | what the settings and flags ask for |
| `cursor` | how pointer shapes are scaled and when they are sent |
| `file_promise_lazy` | pasting files that stay with the client until they are read |
| `h264` | when a video frame is encoded, as a keyframe or not, at which bitrate |
| `health` | when a wedged process ends itself |
| `keyboard_layout`, `scancodes` | which key a scancode or a character stands for |
| `logging` | how log files are rotated |
| `multitransport` | which UDP transport is offered beside the connection |
| `rdpdr` | redirected drives and smart cards |
| `reaper` | what earlier processes left behind |
| `shield`, `virtual_display` | how physical displays are set aside and brought back |
| `supervisor` | one worker process per connection |
| `tls` | the server's certificate and key |

Below them stand `double` (arithmetic in double precision, on integers), `precision` (how
close it comes to the exact results), `keyed` (tables by key), `order`, `wire`, `env`, `text`
and `time`.

What is trusted rather than proved stands behind wrappers in `text` (decoding UTF-8) and
`tls` (reading PEM files and certificates, making a self-signed certificate).

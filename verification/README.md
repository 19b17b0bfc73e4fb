# bts

Tools around the Bonzomatic live-coding network: record and replay shader
sessions, play a playlist as a radio, run the websocket broadcast server and
follow a room in the terminal.

- `src/` is the library, verified with Verus:
  - `utils`: websocket URLs and recording file names;
  - `server::wsbonzoendpoint`: request paths (`/room`, `/room/user`) and who
    receives whom;
  - `server::state`: the server's bookkeeping (one sender per endpoint, first
    come first served; recipients of a message; endpoints of a room);
  - `bonzomatic`: the payload, the framing of its messages and what a save writes;
  - `bonzomatic_launcher`: the command line of a Bonzomatic instance;
  - `radio`: crediting a shader's author in its source;
  - `activity`: moving the selection and drawing the selected code.
- `app/` is the program: command line, websockets, files, JSON and the
  terminal interface.
- `tests/` runs the library on concrete values.

# vibeserial

A serial-port toolkit: framing and checksums, Modbus RTU requests, serial
sessions over pluggable transports, scripted test tasks, project snapshot
files and a TCP gateway client. The library in `src/` is verified with Verus;
`app/` is the command-line and desktop front end around it.

## Layout

- `src/protocol.rs` — XOR-8 and CRC-16/MODBUS checksums, frame building and
  splitting (fixed length or footer), Modbus RTU packets.
- `src/serial.rs` — serial configuration, the `Transport` trait, an in-memory
  transport and the session manager.
- `src/task.rs` — task scripts (`SEND`, `ASSERT CONTAINS`, `SLEEP`) and a
  step-by-step task runner; the caller sleeps and keeps time.
- `src/store.rs` — the line-based project snapshot format, escaping, project
  file names and listing.
- `src/commands.rs` — hex payload text, parity and flow-control names, port list.
- `src/gateway.rs` — gateway configuration, errors and connection state.
- `src/text.rs`, `src/bytes.rs` — character and byte helpers with their models.
- `Transport` and `TaskIo` are implemented by the library's users. Each of
  their operations is described by a relation (`open_post`, `send_post`,
  `shows`, ...) between the state before the call, what was handed in and what
  came back; the library's contracts say what it hands to each call and what
  it does with the answer. An implementation that states nothing keeps the
  defaults, which allow every outcome; `MemoryTransport` states its own.
- `app/` — the CLI (`list-ports`, `demo-session`, `modbus-demo`, `run-task`,
  `save-project`, `gateway-ping`, `ui`), file and socket I/O, the Tauri window.

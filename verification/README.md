# grid_game

A two-player stone-placing game over TCP, with its logic verified in Verus.

- `src/webserver.rs`: the board, the winner rule (four in a row or column
  from its first cell, or five in a row along a row, column or diagonal),
  moves, and the initial-map and update messages the server sends.
- `src/client.rs`: the client's screen buffer and its drawing of the board,
  the cursor, the reading of the server's messages, and the painting of the
  screen with ANSI colours (through `ansi_term`).
- `src/lines.rs`: the run-counting rule along one line, and grid positions.
- `src/terminal.rs`: terminal sizes and the echo/canonical mode bits.
- `app/`: the programs (game server, game client, bots, echo server and
  client), which do the network, keyboard and terminal I/O.

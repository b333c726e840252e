# netdump

A small tcpdump-like packet analyzer. The library under `src/` holds everything that computes or
decides, and is verified with Verus; `app/` is the command line and the Linux capture socket around
it.

## What is proved

- A filter expression compiles to a classic BPF program that accepts exactly the packets for which
  the expression holds (`compiler`, `meaning`, `vm`); its jumps stay within the program, which ends
  in an accepting and a rejecting return (`shape`).
- The filter parser returns the expression that the grammar gives, or one of its error messages, on
  every text (`lexer`, `parser`, `values`, `wellformed`).
- What is parsed from a packet agrees with what filters see in it (`packet`, `agreement`).
- Hex dumps, addresses, dates and packet lines are pinned down character by character (`format`,
  `addr_text`, `clock`, `print`).
- The layout of the capture ring and the order in which it is read (`capture`), the table of
  interfaces (`interfaces`), and the course of a run (`session`).

## What is trusted

- `packet::slice_headers`: the header fields that `etherparse` finds in a frame.
- `String::push`: that it appends one character.

# Dropout Plugin

A real-time audio plugin that simulates realistic, bursty packet loss, with its
logic verified in [Verus](https://github.com/verus-lang/verus).

The incoming stream is split into packets of a fixed size. At each packet
boundary a small recurrent model (dense 2 to 8, GRU 8 to 8, GRU 8 to 16, dense 16
to 1) gives a drop probability, conditioned on the last decision and the target
loss. A seeded generator turns it into keep or drop. Dropped packets are zeroed.

| Control | Range   | Notes                                    |
|---------|---------|------------------------------------------|
| Loss    | 0-100 % | Target loss, an input of the model.      |
| Packet  | 2-80 ms | Packet size, one decision per packet.    |
| Bypass  | on/off  | Clean passthrough.                       |
| Seed    | 0-99    | Names the pattern; not shown in the GUI. |

## Layout

- `src/` is the verified library. `src/laws.rs` holds what is proved of it as a
  whole.
- `tests/` runs the library on the machine's floating point.
- `app/` connects the library to a plugin host and draws the editor.
- `extras/` makes the file of trained weights.

## Numbers

The library holds floating-point numbers by their bit patterns. It compares,
widens and masks them and takes their whole parts itself, exactly. The rest (sums,
products, quotients, `exp`, `tanh`, `round`) comes from the caller as one
function, and the contracts say which formula of those operations each result is.

## Weights

The trained weights of the model are data: `app/weights.rs` reads them from the
file that `LOSSGEN_WEIGHTS` names, or `lossgen_2000.bin`. It holds 1721
little-endian single precision numbers: the tables of `Weights` in the order of
its fields, row by row. It is made from the trained checkpoint:

```bash
python3 extras/export_weights.py lossgen_2000.pth lossgen_2000.bin
```

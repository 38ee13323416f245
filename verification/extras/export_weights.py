#!/usr/bin/env python3
"""Writes the weights of a PyTorch checkpoint as the plugin reads them.

    python3 extras/export_weights.py lossgen_2000.pth lossgen_2000.bin

The output is 1721 little-endian single precision numbers: the tables below, one
after the other, row by row.
"""

import struct
import sys

# Name in the checkpoint and shape, in the order of the fields of `Weights`.
TABLES = [
    ("dense_in.weight", (8, 2)),
    ("dense_in.bias", (8,)),
    ("gru1.weight_ih_l0", (24, 8)),
    ("gru1.weight_hh_l0", (24, 8)),
    ("gru1.bias_ih_l0", (24,)),
    ("gru1.bias_hh_l0", (24,)),
    ("gru2.weight_ih_l0", (48, 8)),
    ("gru2.weight_hh_l0", (48, 16)),
    ("gru2.bias_ih_l0", (48,)),
    ("gru2.bias_hh_l0", (48,)),
    ("dense_out.weight", (1, 16)),
    ("dense_out.bias", (1,)),
]


def encode(tables):
    """The bytes of the tables, each of which must have its shape."""
    out = bytearray()
    for name, shape in TABLES:
        table = tables[name]
        if tuple(table.shape) != shape:
            raise SystemExit(f"{name} has shape {tuple(table.shape)}, not {shape}")
        numbers = table.float().flatten().tolist()
        out += struct.pack(f"<{len(numbers)}f", *numbers)
    return bytes(out)


def main():
    import torch

    source, target = sys.argv[1:]
    checkpoint = torch.load(source, map_location="cpu", weights_only=True)
    tables = checkpoint.get("state_dict", checkpoint)
    with open(target, "wb") as file:
        file.write(encode(tables))


if __name__ == "__main__":
    main()

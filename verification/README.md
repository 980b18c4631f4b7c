# dd-ng

A `dd` over SSH that splits a transfer across N parallel SSH connections. One
connection carries the control channel, a small JSON protocol; N more carry the
data. On the receiver, one data process for each stream writes its share of the
output, and a control process hands out the work and checks what came of it.

* `src/` is the library: everything that decides, and all arithmetic but the
  rates and shares that are only shown, verified with Verus. It does no input or
  output. Each process is a state machine that says what to do next and is told
  what came of it. What holds of the library as a whole stands in proof
  functions whose names start with `law_`.
* `app/` is the program: arguments, files, sockets, threads and processes around
  the library, and the numbers that it shows while it sends.
* `tests/` runs the library on concrete values, up to whole transfers.

A regular file or a block device is sent in ranges, one for each stream, and
every stream is checked by its CRC32C. Standard input and FIFOs are sent in
frames, each with its own offset and CRC32C, by whichever stream is free.

```
dd-ng send -n 8 SRC user@host:DST
some-cmd | dd-ng send -n 4 - user@host:DST
```

Sizes take the units K, M, G, T and P, which are powers of 1024, as are Ki and
KiB and so on; KB, MB, GB, TB and PB are powers of 1000.
A whole number of units is exact; a number with a point has the precision of a
double.

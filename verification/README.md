# vyges-sta

Static timing analysis with fully specified arithmetic, written and proved in Verus. Every value is
narrowed at a defined point (single or double precision), every table interpolates in a defined
order, and every merge visits its candidates in a defined order, so delays, arrivals, requireds and
slacks are reproducible bit for bit, run to run, and from one machine to another wherever the natural
logarithms of the libraries' thresholds are the same.

That matters to a timing-driven router: it orders nets by slack, and the gaps between slacks are far
smaller than any approximation's error.

The library, in data-flow order:

- `liberty_parse`, `liberty`: Liberty syntax, units, cells, pins, timing arcs (combinational,
  clock-to-Q, setup/hold, recovery/removal, preset/clear), NLDM tables and templates.
- `table`: NLDM lookup: bisection, end-interval extrapolation, interpolation in double precision.
- `parasitics`: a net's RC network reduced to a pi model and per-load Elmore delays.
- `dcalc`: gate delay and slew by DMP effective capacitance on the pi model; wire delay and load slew
  from Elmore; threshold adjustment between libraries.
- `netlist`, `graph`, `topology`, `delays`: the timing graph and delay calculation over it (min/max,
  rise/fall).
- `sdc`, `levels`, `search`, `arrivals`, `requireds`: one propagated clock with input/output delays:
  arrivals, requireds from setup checks and output delays, common-path pessimism removal (CRPR),
  vertex and net slacks.
- `fuzzy`: the tolerant comparison every merge uses.

Numbers are `F32` and `F64`: IEEE 754 single and double precision on their bits, each operation
proved to be the exact result rounded once to nearest, ties to even (`rounding`, `magnitude`,
`exact`, `identities`). `decimal`, `natural`, `number`, `shortest` and `text` read and write them.

Natural logarithms are the one thing the library does not compute: `dcalc::ThresholdLogs` and
`delays::LibraryLogs` carry them in, and `app/` takes them from the machine.

Every function states what it returns, over the views of the types. What holds of several functions
together is stated and proved in `liberty_space`, `grid`, `loops`, `delay_laws`, `delay_order`,
`merges`, `kept`, `lumped`, `trace_laws`, `pin_cap_laws`, `cycles`, `arrival_laws` and
`required_laws`.

The scope is what timing-driven global routing reads: NLDM libraries, one clock, setup requireds.
Not yet: hold requireds, multiple or generated clocks, signal integrity. Bidirect pins,
multiply-driven nets and latch data arcs are refused rather than timed wrong.

`app/` offers the timer in the machine's own floating-point types.

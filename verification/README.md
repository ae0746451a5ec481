# vip

Verification IP for Veryl: bus-functional models, memory models and protocol
checkers of the AXI family, as a library whose behaviour is stated in contracts
and proved with Verus.

| Protocol    | Components                                                          |
| ----------- | ------------------------------------------------------------------- |
| AXI4-Lite   | `axi4_lite_master`, `axi4_lite_ram`, `axi4_lite_checker`            |
| AXI4-Stream | `axi4_stream_source`, `axi4_stream_sink`, `axi4_stream_checker`     |
| AXI4        | `axi4_master`, `axi4_ram`                                           |
| AXI3        | `axi3_master`, `axi3_ram`, `axi3_checker`                           |

## Layout

- `src/` is the verified library. Each component is a struct with an
  `on_build`, an `on_clock` and its methods. `on_clock` takes what the
  component's ports show in a cycle and leaves on the ports what it drives; it
  returns the failures it has to report. Each component has a view, a
  mathematical state, and `on_clock` is proved to step it exactly as the view's
  `clocked` says and to report exactly the view's `faults`.
  - `value` and `collections` hold four-state values and the queues, tables and
    sets the components are made of.
  - `common` holds what the protocols share: handshake checks, strobed merges,
    word-addressed memory, random stimulus, latencies.
  - `axi3`, `axi4`, `axi4_lite` and `axi4_stream` hold the components. What
    holds of them over several cycles stands beside them and in the `laws`
    modules, as proof functions. The `history` modules are about runs of any
    length. The `bus` modules prove that a master and a memory agree: checked
    reads check out. The `watched` modules prove that a checker between them
    has nothing to report.
- `app/` connects the components to the simulator: ports, parameters, traces,
  report and image files.
- `tests/` runs the components, alone and connected to each other.

## Limitations

- Write data follows the address; reads are fully multi-outstanding and out of
  order.
- `AxCACHE`, `AxPROT`, `AxQOS`, `AxREGION` and `*USER` are ignored.
- The exclusive monitor knows one master and goes by the word at the start of
  the burst.
- The bursts of `random_bursts` start inside the window they are drawn for;
  later beats may lie past its end.
- On the simulator, methods that return a value are capped at 512 bits. The
  random paths keep wide data inside the component and work at any width.

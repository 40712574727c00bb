# with-limits

`with-limits` runs a command within limits on the memory, the CPU time and the wall-clock time
that it and its descendants take, on Linux, macOS and Windows.

The decisions are a library, written in Verus, under `src/`. Everything in it is proved against
the contract that it states. The program around it, under `app/`, starts the command, looks at
its processes, sends signals and sleeps; it asks the library what is to be done next and hands
back what came of it.

| Module | What it decides |
| --- | --- |
| `limits`, `quantities` | what a limit on the command line stands for |
| `number`, `binary64` | decimal numbers, and the arithmetic that limits are computed with |
| `duration`, `text`, `format` | lengths of time, text, and sizes for people to read |
| `memory` | how much memory a command gets, and how much the host has to give |
| `nice` | how far a command's scheduling priority is lowered |
| `launch`, `exit` | how a command is called, and the exit status that it comes to |
| `process_tree` | which processes belong to a command, and what they use |
| `signals`, `forwarding`, `controller` | whom a signal goes to, and what each order comes to |
| `throttle` | the pauses that hold a command to its CPU allowance |
| `watch`, `supervisor` | what is to be done next to keep a command within its limits |

Floating-point numbers are computed with integers, to the last bit as IEEE 754 has it, so that
the contracts can state them exactly.

Two facts about the standard library are taken on trust: that `String::push` appends a
character, and that the debug formatting of a text depends on the text alone.

# regalloc

A backtracking register allocator, verified with Verus.

A client implements the `Function` trait for its own representation of code and hands over the live
ranges of the function. The allocator gives every range a real register, evicts ranges of lower
spill cost where that makes room, and spills what finds no place. The outcome is the function's code
with real registers, with spills and reloads spliced in.

## Layout

| Module | Contents |
| --- | --- |
| `index`, `regs`, `frags`, `ranges` | indices, registers, live-range fragments, live ranges, spill slots |
| `interface` | the `Function` trait, and the results of an allocation |
| `prio_queue`, `real_reg`, `spill` | the queue of ranges, the registers' commitments, the bridges of a spill |
| `state`, `course` | the allocator as a state machine, and its course from start to end |
| `safety`, `spill_safety` | the invariant, and that every turn keeps it |
| `allocator`, `outcome`, `backtracking` | the allocator at work, what it arrives at, and `alloc_main` |
| `mapping`, `in_force`, `sort`, `stream` | register maps along the code, and editing of instruction streams |
| `inst_stream`, `checker` | editing with added instructions, no-ops and a checker |
| `input_check`, `limits` | tests of what `alloc_main` requires |
| `laws`, `room_laws`, `slot_laws`, `stream_laws`, `edit_laws` | what can be relied on of the whole |
| `slot_homes`, `meaning` | where spilled ranges live, and that the allocated code computes what the source does |
| `show` | texts for the log and for errors |

`app/` holds the drivers that allocate, and edit instruction streams, and write to the log how that
goes.

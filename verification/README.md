# AiOC

A small x86_64 kernel with a desktop in text mode: a window with a shell over a
file system in memory, a taskbar with a clock, a start menu, a mouse cursor, and a
text browser over a small TCP/IP stack.

The logic is a library written in Verus. Every function of it states what it
returns or changes, and Verus proves that it does.

- `src/` is the library. It decides and computes, and touches no hardware: a driver
  is a machine that says which port to read or write next and is told what was
  read.
- `app/` is the kernel around it: the ports, the interrupt handlers, the page
  tables, the heap, the tasks, and the glue to the TCP/IP stack.
- `tests/` runs the library on concrete values.

## Where to look

| Module | What is proved there |
|--------|----------------------|
| `vfs` | what every operation does to the tree, and when it is refused |
| `vga_buffer` | which cells each call changes; printing stays in its region |
| `shell` | what each line comes to, and what it does to the tree |
| `desktop`, `start_menu`, `browser`, `task::mouse` | the screen, cell by cell |
| `net` | the lease, and the one request from its first byte to its body |
| `memory` | the frames that are handed out, and runs of them |
| `drivers` | the order of port accesses, and what is made of the answers |
| `task` | the run queue, the executor, and the queues behind the interrupts |
| `text` | words, lines, numbers |

The laws are the public proof functions whose names begin with `law_`: what is
written to a file is read back, opening and closing the menu leaves the screen as
it was, the cursor never changes the picture under it, no frame is handed out
twice, and so on.

What the library takes from other crates (`smoltcp`, `pc-keyboard`,
`crossbeam-queue`, `volatile`, `x86_64`) stands behind small functions whose
contracts are believed, not proved. Each says in its comment what it claims.

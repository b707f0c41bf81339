# cs110l

The logic of four small systems programs, written in Verus and proved correct:
a debugger (`deet`), a load balancer (`balancebeam`), a program that factors
numbers (`farm`) and a parallel map (`parallel_map`).

- `src/` is the verified library. It decides and computes. The debugger and a
  connection of the load balancer are state machines: each event that comes in
  is answered by what to do next.
- `app/` performs what the library asks for: it traces processes, opens
  sockets, starts threads and prints.
- `tests/` runs the library on concrete values.

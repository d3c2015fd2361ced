# kos

The logic of a small RISC-V (SV39) teaching kernel, verified with Verus.

- `src/` is the verified library: addresses and page numbers, the frame
  allocator, page tables and address spaces (loading ELF images, fork with
  copy-on-write, lazy mapping, the kernel map), processes and threads
  (the process tree, exit and wait, identifiers), signals, the scheduler
  and processor hand-over, pipes and descriptor tables, trap and system
  call decisions, the clock, the loader's application table, and SBI
  requests.
- `tests/` exercises the library on concrete values.
- `app/` is the kernel program around it: the SBI `ecall`, control
  registers, the trampoline, console output, and the state that ties
  processes to their address spaces and threads.

Assumptions and limits:

- ELF images are read as little-endian, as the RISC-V and x86-64 targets
  store them; `xmas_elf` reads fields in the machine's byte order, so the
  checks of `memory::elf` agree with it on little-endian machines only.
- The file system (`open`, `unlinkat`, `linkat`, `chdir`, `getcwd`,
  `fstat`, directory listing, reading and writing files) lives in the
  `component` crate, which this build does not have: the library holds the
  decisions of these calls, and the program answers them with `ENOENT`.
  Only the console and pipes have descriptors behind them.

# coursework

A Verus library of small verified programs, each in a module of `src/`:

- `chip8`: a CHIP-8 virtual machine. `interpreter` decodes and runs
  instructions against any `Platform`, whose spec functions say what each
  call does; `managed_interpreter` keeps screen, timers and keys in memory
  and runs the machine for a number of milliseconds.
- `comm`: the lines two texts have in common.
- `ini`: an INI file parser.
- `paperio`: a bot for a paper.io-style territory game.
- `perc`: site percolation on a grid of booleans.
- `polka`: the words of a small stack language and what each asks for.
- `trust`: an iterated trust game between agents.

`tests/` holds the tests. `app/` is the program around the library: file
input and output, random grids, and the stack language's arithmetic on
floating-point numbers, which the library does not hold.

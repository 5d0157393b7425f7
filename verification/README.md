# whyhot

A macOS terminal diagnostic that answers "why is my Mac hot?". It samples
process activity, memory, load, battery, thermal state and displays, turns
them into findings, and shows them as a report or a live screen with an
animated flame.

## Layout

- `src/` is the library, verified with Verus:
  - `cli.rs`: command-line options, including exact decimal parsing of the
    refresh interval;
  - `model.rs`: process, application and snapshot rows, severities, findings;
  - `grouping.rs`: naming processes after their application and grouping them;
  - `order.rs`: the orderings used for names and PIDs;
  - `sampler.rs`: parsing `pmset` and `system_profiler` output, and turning a
    reading into a snapshot while tracking how long activity has lasted;
  - `diagnosis.rs`: the rules that produce findings, with the laws they obey;
  - `session.rs`: what a key does on the live screen and which application
    stays selected;
  - `ui.rs`: the plain report, the live screen, the flame and word wrapping;
  - `text.rs`: character-sequence helpers and their specifications.
- `app/` is the program around it: argument reading, `sysinfo` and command
  output, the raw terminal, and the screen loop.
- `tests/` runs the library on concrete values.

Percentages are carried as integer hundredths (50% is 5000), so every rule
and every figure on screen is computed and proved without floating point.

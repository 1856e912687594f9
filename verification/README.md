# staros_pc

The parts of a small x86-64 operating system that bring a PC up, with their
behaviour stated in contracts and proved by Verus.

| Module | What it is |
|--------|------------|
| `acpi` | The firmware's static tables: root pointer, directory, interrupt topology, configuration windows, timer |
| `bootinfo` | What a loader hands a kernel, what a memory map comes to, and which memory is free |
| `elf64` | The loadable segments of a kernel image |
| `framebuffer` | How a pixel is encoded |
| `loader` | The firmware loader: memory map, page tables, files, console, and the sequence that ties them together |
| `arch` | Descriptor tables, traps, system calls, task switching, interrupt controllers and timers |

Drivers reach their device through a trait (`PortIo`, `Mmio32`, `Mmio64`) whose
contract is the log of accesses made, so what a driver does is stated as the exact
sequence of reads and writes. Whatever needs the machine itself, such as
instructions, memory at fixed addresses and calls into the firmware, is in `app/`,
which performs the steps that the library decides on.

Properties that span several functions are public proof functions named `law_*`,
beside the functions they speak of. `tests/` runs the library on concrete values.

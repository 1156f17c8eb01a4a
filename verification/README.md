# k1k

The verified core of K1K, a capability-based kernel for x86_64, its ring-3
runtime and its services.

- `src/arch`: what the kernel reads out of ACPI tables, writes to interrupt
  controllers and timers, finds on the PCI bus, and makes of a trap.
- `src/kernel`: frames, address spaces, capabilities, endpoints, memory objects,
  the scheduler, system calls, the ELF loader, services and their supervision.
- `src/rt`: what every ring-3 program builds on: system calls, the boot page, the
  heap, the file protocol's client and server.
- `src/svc`: the services: FAT volumes, paths, the file server, the manifest, the
  NVMe driver, the keyboard, the demonstrations.
- `app`: the machine around it: boot, hardware, page tables, context switches,
  and the programs' entry points.

Every function of `src` has a contract, and Verus proves all of them but those of
six wrappers, which are believed: four in `src/kernel/vmm.rs` around the page table
entries of the `x86_64` crate, and two in `src/text.rs` around
`core::str::from_utf8` and `String::from_iter`. What a file system's block device
reads is taken on trust where a program implements `BlockDevice` outside `src`.

What connects several functions is stated as a public `lemma_...`: that no task
gets authority it was not given, that a memory object lives as long as it is
referred to, that no wake-up is lost, that an interrupt is acknowledged before it
is forwarded, that heap blocks never overlap and released ones become one again,
that a client reads the bytes that are on the disk.

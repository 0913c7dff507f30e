# systems_study

Three small pieces of a virtual machine monitor, written in Rust and verified with Verus.

| Module | What it is |
|---|---|
| `kvm` | A minimal monitor: the bring-up of a virtual machine as a sequence of steps, what each exit of the guest means, a serial port and a one-register device, and the guests that are run |
| `virtq` | The split virtqueue of virtio: shared memory, ring layout, the driver half, the device half, and what holds of both together. The device half exists twice: on this library's own shared memory, and on the crates `virtio-queue` and `vm-memory` |
| `uffd` | Demand paging with `userfaultfd`: the decisions of a fault handler, CPU topology, and the configurations that a fault is measured in |
| `stats`, `text`, `le` | Percentiles, numbers in words, little-endian fields |

The library makes no system call. It decides what to ask of the kernel and what to make of the
answers; the programs under `app/` ask.

## Layout

- `src/` - the library. Functions whose names begin with `law_` are proofs of what holds of several
  functions together: that what a driver publishes is what a device sees, that no descriptor leaks,
  that no wake-up is lost, that each batch costs one kick and one interrupt, that a page faults once.
- `src/virtq/backing.rs` - what is taken from outside crates, each with what is claimed of it.
- `tests/` - the library run on concrete values, with the outside crates.
- `app/` - the programs: a monitor on `/dev/kvm`, the queue's demo and measurements, and a pager.

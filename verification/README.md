# IronLung core

The verified core of IronLung, an `LD_PRELOAD` memory hardener for C
programs. `src/` is the library, proved with Verus: the allocator's size
planning, per-thread block cache and use-after-free quarantine, the argument
checks of every interposed entry point, the kernel `vprintf` (format check,
rendering, line-buffered output), the shared-memory protocol of the
`getaddrinfo` sandbox (request, response, framed address records), the
native thread table, and the export check of the shared object (baseline
and `nm` parsing, missing and unexpected symbols). `app/` is the C-facing
glue: the `extern "C"` entry points, the talc or mimalloc heap, raw system
calls, `dlsym` delegation, the sandbox process and the export check's file
and `nm` handling. The quarantine, the sandbox and the mimalloc backend are
opt-in switches at the top of their glue modules. `tests/` exercises the
library on concrete values.

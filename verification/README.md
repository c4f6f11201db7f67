# string_abi

C string and memory functions over a paged address space, proved with Verus.

An address space is a value (`memory::Memory`); a pointer is an index into it,
with what the allocation registry knows of it (`memory::Ptr`). Every function
states what it returns, what it leaves in memory, and what it exchanges with the
runtime membrane (`membrane::Membrane`): whether the membrane is bypassed, what
the policy is asked, what is repaired and what is reported.

| module | what it holds |
| --- | --- |
| `memory`, `swar`, `scan`, `order` | the space, words of eight bytes, scans and orders |
| `membrane` | the runtime's answers, the log, guards, clamps and stages |
| `span`, `sets` | byte sets: probes, nibble tables, `strspn`, `strcspn`, `strpbrk` |
| `copy`, `append`, `dup` | `strcpy` to `strxfrm`, `strcat` to `strlcat`, `strdup` |
| `search`, `matcher`, `substr` | lengths, bytes and substrings |
| `compare`, `version` | comparisons of blocks, strings and version numbers |
| `memops` | `memcpy`, `memmove`, `memset` and their relatives |
| `tokens` | `strtok`, `strtok_r`, `strsep` |
| `argz`, `envz` | argument and environment vectors |
| `errors`, `signals`, `text`, `strfrom` | texts of errors, signals and numbers |
| `regex`, `glob` | what surrounds a pattern engine |
| `dispatch` | the choice of an instruction set |

Laws that span functions are public proof functions named `law_..`. `app/` wraps
the library into a process with a host that supplies the policy, the allocator and
the engines.

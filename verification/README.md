# cranelift_lower

Lowers type-checked C functions to Cranelift's intermediate language.

- `types`, `ast`: the types and syntax trees that come in.
- `shape`: which functions can be lowered (`can_lower`), and the tables of operations and casts.
- `lower`: the code generator; `Context::lower_function` gives the text of a lowered function.
- `backend`: the calls into Cranelift, and all that is taken for granted about them.
- `ir`: a function under construction, seen as the operations that built it, and what Cranelift
  demands of each of them.
- `code`: the operations that each function is lowered to.
- `laws`: what holds of that code.
- `app`: lowers functions and writes their texts out.

Everything under `src` is verified with Verus, except for the bodies in `backend`.

# subsecond

Hot-patching of running programs, with the logic verified by Verus.

`src/` is the library.

- Making a patch: `resolve` turns freshly compiled object files and the program they belong
  to into an object file that defines what the files leave undefined. It rests on `target`,
  `symbols`, `incremental`, `stub`, `patch`, `patch_object` and `object_file`. The last one
  holds the calls into the `object` crate.
- Applying a patch: `jump_table` moves the addresses of a patch to where it was loaded,
  `runtime` keeps the state of a patched program, and `hot` decides which version of a
  function is called.

Functions state what they do in their contracts. Properties that span several functions are
proved in the functions whose names start with `law_`; `object_laws` and `file_laws` hold
those of patch objects and of the files they are made for.

`app/` reads files, loads libraries and catches panics around the library.

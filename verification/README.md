# clip

A small command-line parser whose behaviour is stated in contracts and proved.

Arguments are built with `create_arg(..)` and its builders (`alias`,
`add_param`, `positional`, `variadic`, `help`) and added to a `Clip`. `Clip::parse`
splits a command line at single spaces and reads each argument with the words
its parameters take; words that name no argument go to the variadic argument.

- `src/arg.rs`: argument types, builders, the `fits`/`verify` check and `add`.
- `src/clip.rs`: the parser, the specification of reading (`Clip::parsed`) and
  the verified reader (`parse`, `parse_vec`, `parse_arg`).
- `src/table.rs`: `StrMap`, a name-to-value table with unique names.
- `src/text.rs`: splitting into words, string equality, decimal text.
- `src/error.rs`: errors and their messages.
- `src/laws.rs`: properties of reading (composition, aliases, every word read once).
- `app/lib.rs`: `Display` and `std::error::Error` wrappers, and checked `add`.

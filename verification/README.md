# reviewr

Two errands of a review pane, as a verified library: opening a link in the user's browser, and
listing the files of a directory that is not in any repository.

- `src/` is the library. It decides and computes, and every function in it is proved against its
  contract by Verus. What holds of the library as a whole is stated by the public proof functions
  whose names start with `law_`.
- `app/` carries out what the library asks for: it starts programs, walks directories with the
  `ignore` crate, and reads them. It is for Unix, where a path is a sequence of bytes.
- `tests/` runs the library on concrete values.

Opening a URL goes through the steps of `launch`: a configured opener is looked for and started,
and is never replaced by another; without one, the first of the platform's openers that is on the
`PATH` is started.

A listing goes through a `Walk` and then a `Scan` (`walk`). The walk is handed everything that the
ignore rules keep; the scan is handed the children of every directory that was walked, and those
that the walk did not come upon are the ignored ones. Both spend one budget.

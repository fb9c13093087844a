# oxlide

A terminal presenter for markdown slide decks, with its parser, layout rules
and navigation state verified with Verus.

## Decks

- Slides are separated by a thematic break (`---`) or by two or more blank
  lines.
- Within a slide, blocks separated by a blank line go into separate cells;
  contiguous blocks share a cell.
- A paragraph or list whose first line starts with a tab is shown on the
  slide; one without is a speaker note. Headings, fenced code blocks and
  images are always shown.
- A line holding only an image path (`hero.png`), after a blank line, becomes
  an image; indented `key: value` lines after it set its `size`, `x`, `y`,
  `background` and `opacity`.
- `<!-- oxlide-NAME: ARGS -->` comments are directives, attached to the
  current cell, to the deck (before the first slide break) or to the slide.
- Indented code blocks are rejected; use fenced code.

## Layout

- `src/parser`: the line-level prepass (`prepass.rs`), the CommonMark event
  stream from `pulldown-cmark` (`markdown.rs`), directive comments
  (`directive.rs`), opacity values read as a 32-bit float reads them
  (`opacity.rs`) and the fold of events into slides, cells and notes
  (`fold.rs`). Offsets of the rewritten text map back to the source.
- `src/layout`: the cell grid, two-cell weighting and the narrow-area stack,
  with areas split by ratatui's layout solver.
- `src/render`: themes and their registry, the padded content area, the
  chrome rows, hero slides, the rows of a cell and of a list, styled inline
  runs, QR code placement, image paths and width-aware truncation.
- `src/present.rs`: navigation state and theme choice; `src/cli.rs`: the
  command line's meaning.
- `app/`: the program: argument parsing with clap, the terminal session with
  crossterm, and drawing with ratatui.

# mslx

Microsoft Learn Exporter to EPUB: turns a Microsoft Learn certification, exam, learning path,
course or module into a single, well-structured EPUB study book for offline reading. Paths become parts,
modules and units become sections, knowledge-check questions are rendered for self-testing, and a
sources appendix cites every original page.

The engine is written in Verus. Every function of `src/` carries a contract that Verus proves;
what it takes from outside crates (`zip` for the archive, `pulldown-cmark` for CommonMark, the
standard library for letter case) stands behind a few declarations whose contracts are believed,
each described where it is declared.

Each unit's Markdown is read from the public `MicrosoftDocs/learn` repository. A module that is
not there is asked of Learn's rendered Markdown endpoint, unit by unit; what neither has is
reported.

## Layout

- `src/` - the verified engine. It performs no IO: what has to be fetched it asks for, and it
  takes what was fetched.
  - `input`, `resolve`, `guide`, `resolver` - from an input to the book tree: what a user's text
    means, and the state machines that say which catalog query comes next.
  - `catalog`, `tree`, `outline` - the catalog's shapes and queries, the resolved tree, its
    printed forms.
  - `content` - the index of the public content repository, and where a unit's source is.
  - `markdown`, `scrape`, `quiz` - from a unit's source to XHTML.
  - `pages`, `images`, `assemble`, `epub`, `archive`, `sample` - from pages to the packed book.
  - `export` - the question bank.
  - `error`, `text` - errors, and what is done with characters.
- `tests/` - its tests.
- `app/` - the `mslx` command and the browser's bindings: fetching, JSON and YAML, drawing SVGs,
  files. The browser's build embeds two subsets of the Carlito font, which it expects under
  `app/fonts/`.

Laws that relate several functions stand in the modules as public proof functions whose names
begin with `law_`.

## Usage

```
mslx book <cert-url-or-code> [out.epub]
mslx <cert-url-or-code> [--json]
mslx epub <module-uid> [out.epub]
mslx unit <module-url-or-slug> <unit-uid>
mslx questions <cert-url-or-code> [out.json]
```

`--locale <code>` selects a locale (default `en-us`). A bare code is accepted in any common form
(`az-305`, `az305`, `AZ-305`).

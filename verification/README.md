# book-summary

Builds the `SUMMARY.md` of an mdBook or GitBook from the Markdown notes under
a directory. The notes are gathered into a chapter tree (one chapter per
directory), files are ordered by volume/chapter numbers, by numbers in their
names (Arabic or Chinese numerals), then by path, and the tree is written as
nested Markdown lists.

Layout:

- `src/` – the library, verified with Verus.
  - `text.rs`: character-level helpers (splitting, joining, searching,
    number text) and the wrappers around `str`, `Path` and `titlecase`.
  - `sort.rs`: sort keys of note paths, `compare_paths`, and the stable
    sort of paths, with the laws of the order.
  - `book.rs`: the `Format` and `Chapter` types and building a book from
    paths (`Chapter::new`), with its model `book_model`.
  - `summary.rs`: the summary text (`Chapter::get_summary_file`) and its
    model `summary`.
  - `header.rs`: the first `# ` header of a note's content.
  - `marker.rs`: writing a summary into an existing file between markers.
  - `config.rs`: reading `book.toml` / `book.json` and choosing the entries
    of the book.
  - `seqs.rs`: first-match search over sequences.
- `app/main.rs` – the command line: arguments, walking the directory,
  reading and writing files.
- `tests/` – tests of the library.

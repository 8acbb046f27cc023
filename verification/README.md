# EPUB Manager

EPUB Manager cleans and normalizes a personal EPUB library: it copies the books of
a Source Library, which is only read, to places in an Output Library that follow
from their metadata.

- `src/` is the library. It is verified with Verus: what each function does is
  stated in its contract, and what holds across functions is stated and proved as
  public proof functions.
- `tests/` runs the library on concrete values, with the `zip`, `epub` and
  `urlencoding` crates behind it.
- `app/` is the program: command line, files, network and window.

## The library

| Module | What it does |
| --- | --- |
| `output_path` | Output Path Templates: where a book goes, and which names are safe |
| `epub_metadata`, `package` | what a book says of itself in its package document |
| `enrichment`, `enrichment::merge` | what providers add, and which of it is applied |
| `enrichment::providers` | looking a book up at Open Library and Wikidata |
| `epub_writer`, `archive` | a copy of a book with patched metadata |
| `series_metadata`, `series_elements`, `markup` | what a package document says of a series, read and written as markup |
| `copier` | putting a copy in its place without replacing a file |
| `normalize`, `scan`, `cli` | runs over a library, reports, scans, arguments |
| `path`, `text`, `pairs` | paths, texts and lists of keys that the others are written in |

The library computes on plain values. Where something outside has to happen, such
as a file to be renamed or a document to be fetched, a value of the library says
what is to be done next and is told what came of it: `NormalizeRun`, `EpubCopy`,
`PatchedCopy`, `Resolution`, `OpenLibraryLookup`, `WikidataLookup`,
`ChainedLookup`.

## What is proved

Among other things:

- An output path consists of safe names and leads to a place inside the Output
  Library; the default template has one for every book.
- A dry run copies nothing, and a book that could not be looked up is not copied.
  No two books get the same place, and every book has one entry in the report.
- Nothing is applied of an answer that is ambiguous or has no identifier to support
  it, and a title or an author that a book has is kept.
- A patched copy can be opened and has the entries of the book, unless the end of its
  archive is ambiguous, as that of some very large ones is; only its package document
  differs, inside its `metadata` element.
- Where a series is written, the elements that are written for it are all that are
  left about a series, and it is found again; other elements stay, and so does a name
  or a place that no patch gives. This asks for metadata in which every tag is closed.
- A plain copy succeeds only by a rename that fails where the target exists, and a
  temporary file is removed where it does not succeed.

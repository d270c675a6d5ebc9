# Duplicate Finder

Finds files with the same content in one or more folders, and removes the copies
that are not wanted.

The library under `src/` holds everything that is decided or computed, and is
verified with Verus:

| Modules | What they hold |
|---|---|
| `text`, `paths`, `names`, `counting` | texts, paths as texts, names in order, sums |
| `model`, `marks`, `tree`, `counts`, `model_laws` | groups of duplicates, the folders that hold them, marks and counts |
| `globs`, `rules`, `runs`, `rule_laws`, `hiding`, `fresh_laws` | patterns, rules that mark files, exclusions that hide them |
| `contents`, `roots`, `buckets`, `scanner`, `search_laws` | fingerprints, the folders to search, the search itself |
| `deletion`, `list_laws`, `removal` | lists of files to delete, and deleting them safely |
| `preview`, `views`, `session`, `intake` | what is shown, and what is done upon the user's wishes |

What is promised of several functions together stands in public proof functions.
Among them:

- Files that a search has told to be duplicates have the same content, from the
  moment they are told, whatever else is still to be read or could not be read.
- When nothing is left to be read, the files of which nothing failed to be read are
  told together exactly where they have the same content. A file that could not be
  read, or that changed its size meanwhile, is left out.
- A rule never marks the last unmarked copy of a group.
- A file that is to be kept is never deleted.
- A list of groups that each have something to delete is read back as it was
  written.

What is said of a search holds as long as different contents have different
fingerprints, and no fingerprint of a whole file is wrong.

The application under `app/` is the window, the threads and the disk around it.
It asks the library what to do and hands in what came of it.

What the library takes from other crates is declared, with what it relies on, in
`globs` (globset), `contents` (blake3) and `views` (humansize).

# find_duplicates

A desktop tool that finds duplicated files below a folder: it lists the
files (skipping ignored names), groups them by size, compares the files of
equal size by the CRC-32 checksum of their contents (the first 4 KiB in a
quick scan, or whole files), and shows the duplicates in a tree of folders:
every duplicated file appears once, in the node of the folder that holds it,
below the folders that lead to it.

Layout:

- `src/` is the library, verified with Verus:
  - `path.rs`: paths as sequences of components, each with its kind (prefix,
    root, `.`, `..` or name) and its bytes; their order and prefixes;
  - `listing.rs`: which directory entries are skipped, and how a minimum
    size typed as text is read (whole numbers, units);
  - `sizes.rs`: grouping files by size, and the groups worth comparing;
  - `duplicates.rs`: grouping by content checksum (`crc32fast`);
  - `tree.rs`: the tree of folders holding duplicates, and its count;
  - `overview.rs`: the folders listed and where their files' copies lie;
  - `laws.rs`: properties of the library as a whole: the checksum groups
    partition the files, every duplicate is shown once in the tree, the
    tree is determined by its inputs, the order of the size groups
    changes only the order of the duplicates found, whole numbers typed as
    sizes read back unchanged, and units ignore the case of ASCII letters.
- `app/` is the program around it: walking the file system, reading files,
  and the `egui` window.
- `tests/` exercises the library on concrete values.

# zip2dmg

Converts a ZIP archive containing a macOS `.app` bundle into an unsigned DMG
disk image, without macOS, `hdiutil` or any other external tool.

```text
ZIP archive
   |  entries below the .app directory
   v
filesystem image (HFS+ or APFS)
   |  directories, files, links and Finder decorations, in a fixed order
   v
GPT partition layout
   |  boot record, primary and backup tables, gaps
   v
DMG container
```

`src/` is a library verified with Verus. It holds what is decided and computed:

| Module | What it holds |
| :--- | :--- |
| `zip_reader` | the bundle in an archive and the entries below it |
| `tree` | which directories, files and links are created, and in which order |
| `estimate` | how large the image has to be |
| `volume` | the steps that fill a volume, and when a build is tried again |
| `apfs` | parents, names and object numbers on an APFS volume |
| `bud1`, `plist_blob`, `ds_store` | the `.DS_Store` file with the Finder layout |
| `sparse`, `gpt` | the block device in memory and the partition layout |
| `dmg` | the partitions of the container |
| `eula` | the license resources |
| `decorations`, `options` | what the command line asks for |
| `text`, `bytes` | text and numbers |

The modules hold laws: proof functions, named `law_...`, that state what
holds across its functions. What the library takes from other crates stands
behind small functions marked `external_body`, whose comments say what is taken
on trust.

`app/` is the command-line program around the library: it reads and writes
files and carries out the steps that the library lists. `tests/` runs the
library on concrete values.

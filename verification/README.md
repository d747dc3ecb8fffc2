# convert-to-jpg

A command-line tool that converts PNG, BMP, TIFF, WebP, GIF, AVIF, HEIC and
HEIF images to JPEG, after letting the user pick the files on a terminal screen.

- `src/` is the verified library (Verus): settings and their defaults
  (`config`), path parts (`paths`), file-size text and the extension test
  (`utils`), the directory walk and its name order (`walk`), output naming,
  ffmpeg arguments and failure messages (`converter`), JPEG re-encoding
  (`imaging`), unpacking of the shipped ffmpeg (`ffmpeg`), and the state of
  the file-selection screen (`tui`).
- `app/` is the program around it: argument parsing, reading `config.toml`,
  file-system access, the cursive screen, running ffmpeg and the task pool.
- `tests/` exercises the library on concrete values.

The xz-compressed ffmpeg (`ffmpeg.xz`, or `ffmpeg.exe.xz` on Windows) is read
from next to the binary or from the current directory.

# agent-spy

Watches a folder and shows every image created or modified in it, in a window. The most
recent image is displayed, and you can step back through the earlier ones.

The crate is split in two.

- `src/` is the library: what the program decides and computes. It is written in
  [Verus](https://github.com/verus-lang/verus), and every function is proved to do what its
  contract says, but for the few marked `external_body` that call other code. It reads no image
  file and does not talk to the X server.
- `app/` is the program: it reads files, watches the directory and talks to the X server, and asks
  the library what to do.

| Module   | What it is about                                                     |
| -------- | -------------------------------------------------------------------- |
| `args`   | the command line                                                     |
| `clock`  | points in time and the local time of day                             |
| `images` | which files are images, and decoding them                            |
| `keys`   | the keyboard layout                                                  |
| `layout` | where pictures and text go in the window                             |
| `loader` | file system events, and waiting until files are completely written   |
| `paint`  | what the window looks like: the label, the title, messages, pictures |
| `path`   | file paths                                                           |
| `pixels` | composing pixels over the background and shrinking images            |
| `scale`  | the size at which an image is shown                                  |
| `scan`   | the images that are there before anything happens                    |
| `screen` | what the X display has to offer                                      |
| `text`   | numbers, padding, and characters as the X server draws them          |
| `ui`     | what the window shows, and how that changes                          |

The library calls the `image` crate, `chrono` and two functions of the standard library through
functions marked `external_body`, whose contracts are not proved; each says above it what it relies
on. Beside the functions stand public proof functions, which state what holds of the library as a
whole: that images keep their aspect ratio and are never enlarged, that a picture and the borders
around it cover the window, that files which cannot be decoded are given up, that a search finds every
image once, that a new image is the one that is selected, and so on.

# hap

The HAP family of video codecs as a verified library, and HapLab, a desktop program and command
line tool around it.

## The library (`src/`)

Functions have contracts, and Verus proves them; the contracts of the few functions marked
`external_body`, which only call other crates or the standard library, are taken without proof.
Pixels, packets and files are sequences of bytes in the contracts; binary32 arithmetic is modelled
exactly, so that what the encoders compute with it can be stated.

| Module | What it holds |
| --- | --- |
| `format`, `color` | the flavours of HAP; colour range, alpha and dithering |
| `single`, `bytes`, `text`, `parallel` | binary32 arithmetic, byte orders, texts, work on all processors |
| `ycocg`, `dxt`, `bc7`, `bc6h`, `blocks` | colour transforms and block compression |
| `header`, `snappy` | sections, chunk tables and chunks of a frame |
| `encoder`, `decoder` | whole frames |
| `mov` | QuickTime movies: writing, reading, and that reading gives back what was written |
| `inspector`, `job`, `still` | summaries and audits of movies, encoding of movies and of still images |
| `picture` | image files and previews |
| `media`, `tools`, `presets`, `player`, `window`, `display`, `benchmark`, `gpu` | the rules behind the program: what files are, how they are opened, encoded, played and shown |

Proof functions whose names begin with `law_` state what holds of several functions together.

Block compression, Snappy, image files and threads come from the crates `texpresso`, `bcdec_rs`,
`texture2ddecoder`, `snap`, `image` and `rayon`. The doc comments of the functions that call them say what
is relied on.

One kind of input is refused though it is valid: a Hap HDR frame with a BC6H block of 16-bit
endpoints. `texture2ddecoder` shifts a 16-bit number by 16 places on such a block, which panics in a
checked build and makes wrong pixels in any other, so `decompress_bc6h` reports an error for the
frame and does not call it.

## The program (`app/`)

`app/` does what touches the world: arguments, files, the ffmpeg programs, threads, the graphics
card and the window. Decisions are left to the library. Shaders and the icon are read from a
directory `assets` beside the program.

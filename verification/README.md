# soundforge

The verified core of an audio editor, with a thin shell around it.

- `src/` is the library. Verus proves every function in it against its contract.
- `tests/` run the library with the real outside crates.
- `app/` is ordinary Rust around the library: files, sound devices, threads and the commands of
  the web user interface.

## What is proved

- A range query of the summary pyramid answers what a scan of the range would: count, extremes
  with their first positions, zero crossings, and sums whose bracketing is stated. It takes fewer
  than two leaves of samples and a few blocks for each level, whatever the range.
- An edit changes the selected range alone. Undo takes back any number of recorded edits in reverse
  order, to the exact samples, and a trim can be undone as well. Every cache file is owned by exactly
  one of the document, its undo stack and the list of files to delete, also after an undo that fails.
- Decoded and recorded audio is laid out channel by channel. Every captured frame is either written
  or counted as dropped, and a finished recording is the whole frames of its batches.
- Playback stays within its range. What comes out of the ring buffer is what went in, in order, and
  playback is finished only when all that was seen in the ring is out of it. Where the rates match,
  each device channel hears the samples of its channel unchanged, and a device with one channel
  hears the mean of every frame.
- The startup sweep deletes only cache files that bear the id of a process that the system does not
  know, or the id of this process, which has written none yet.

Floating-point arithmetic is handed to the library as functions on bit patterns, so what is proved
of a sum or a gain is which operations were applied to which samples, and in which order.

## What is trusted

The calls into `memmap2`, `bytemuck` and `rtrb`, and two functions of `std::sync::Arc`, stand
behind wrappers in `src/map.rs`, `src/ring.rs` and `src/audio.rs`. Each says in its doc comment
what it claims.

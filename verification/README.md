# flirpi

Live thermal imagery from a FLIR One camera on a Raspberry Pi framebuffer.

The library (`src/`, verified with Verus):

- `frame` — reassembles USB bulk chunks into frames (magic header, declared
  size, flat-field-correction frames and the frame after them dropped) and
  extracts the 160 x 120 thermal image, min-max normalised to 0..=255.
- `frame_laws` — properties of reassembly and normalisation over all inputs.
- `palette` — the Ironbow palette, interpolated between seven control points.
- `paint` — writing pixels into the framebuffer's pixel memory.
- `font` — the 5 x 7 bitmap font and text rotated -90°.
- `display` — packing colours by the channel layout the screen reports,
  scaling the image to the screen by nearest neighbour, and drawing the
  picture, the crosshair and the temperature label.
- `args` — command-line flag lookup.

The program (`app/`) does the I/O: USB through `rusb`, the framebuffer device
through `libc` (`open`, `ioctl`, `mmap`), signal handling, and the
floating-point conversion and formatting of the temperature label.

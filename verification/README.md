# YAVE

A voxel engine: an endless world of blocks, generated from noise, meshed in the background and
drawn with Vulkan. What the engine decides is a library whose behaviour is stated in contracts and
proved with Verus; what it does to the outside world is a thin program around it.

## The library (`src/`)

- `models`: the shapes of blocks.
- `world`: blocks, chunks, terrain, and the state of the world. `world::state` says what that state
  is; `world::world` holds the operations on it:
  - `frame`: what is done in each frame,
  - `stream`: generating and meshing chunks,
  - `scan`: what changes when the camera enters another chunk,
  - `upload`: moving meshes to the GPU, one batch at a time,
  - `interact`: edits, collisions and rays,
  - `draw`: draw commands,
  - `laws`, `owners` and `history`: what holds of the world as a whole, whatever has happened to
    it.
- `meshing`: from blocks to meshes, for three levels of detail.
- `render`: where meshes lie in the buffers of the GPU, what is drawn in a frame and in which order,
  and what is chosen among what the graphics driver offers.
- `settings`, `stats`, `input`, `export`: the settings file, frame times, the keyboard and the
  mouse, and maps.

Lengths inside a mesh are integers: positions and texture coordinates in tenths of a block, light in
thirds. Proof functions whose names begin with `law_` state what holds across operations.

## The program (`app/`)

The window, the GPU, threads, files, and everything in floating point: the camera, the noise that
the terrain is made of, and the frustum. Compiled shaders are read from `shaders/`, textures from
`Textures/`, and settings from `settings.toml`.

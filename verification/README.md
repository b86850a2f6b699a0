# Pinturapp

A 3D texture painter: load a Wavefront OBJ with UVs, brush its surface in a viewport, and the
strokes land in the UV texture.

The crate has two parts.

- `src/` is the library, verified with Verus. It holds the parts of the painter that work on
  whole numbers and text:
  - `io::mesh_loader`: the OBJ reader (records, face corners, vertex welding, fan
    triangulation) with its full specification, and the proof that every model it returns
    hangs together;
  - `io::texture_png`: a texture's bytes and their PNG file, as a project bundle stores it;
  - `renderer::texture`: the RGBA8 texture type;
  - `renderer::paint_pipeline`: seam padding, the UV tile bins and the coverage cache that
    narrows a stamp to its candidate triangles;
  - `renderer::gpu_paint`: the integer side of the GPU stamp pass (color words, mode codes,
    buffers, read-back);
  - `renderer::preview`: the pick-buffer lookup and the unique edges of the wireframe;
  - `app`: undo/redo history, recent projects, load requests held behind unsaved changes,
    autosave decisions, project defaults;
  - `platform`: the bookkeeping of the Windows pen hook and the Wintab backend;
  - `ui`: labels and keyboard shortcuts.
- `app/` is the program around it: the eframe window, file dialogs and disk I/O, project
  bundles (zip and JSON), the floating-point geometry (rasterization, the projected brush,
  normals), the wgpu compute pass, and the Windows system calls.

`tests/` runs the library on concrete cases.

# native32emu

An emulator core for Native32 game files (`.smf`/`.ssl` and their `.dat`
menus), written in Verus: the file format, image and sound decoding, the
header cipher, the action bytecode machine, sprites and timelines, the
renderer and scalers, cheats, input, the audio mixer and the integer parts
of the MPEG-1 cutscene decoders are verified against their
`requires`/`ensures` contracts. The video decoder's contracts chain each
step of a picture (header, slices, macroblocks, prediction, blocks) from
the state before it, so the frame shown follows from the stream; the MP2
decoder's contracts state every subband value of a frame.

## Layout

- `src/` — the verified library.
  - `file_loader`, `header_decryptor`, `des_constants`: the container format
    and its DES-encrypted header.
  - `image_decoder`, `dat_loader`: ARGB and YUV image formats, menu images.
  - `actions`, `action_vm`: the bytecode and the machine that steps it; the
    machine hands host work (timeline control, properties, clones, frame
    calls, `GetUrl2`) and the questions it asks the host (the time, a
    target's frame) back as requests.
  - `url_command`: what a `GetUrl2` host call asks for (menu listings,
    save data, content switching, cutscene videos, screen moves).
  - `sprite_system`, `frame_player`, `movies`, `content_loader`,
    `file_browser`, `save_manager`, `menu_text`, `text`: game state.
  - `renderer`, `scaler`, `xbrz`, `gamepad_overlay`: drawing and scaling.
  - `audio_engine`: the channel mixer; `input_handler`: key repeat and
    remapping; `cheats`: cheat rules.
  - `mpeg`: program-stream demuxing, the MPEG-1 video decoder and the
    integer part of the MP2 audio decoder.
- `tests/` — tests of the library.
- `app/` — the standalone front-end: window and input (minifb), files,
  floating-point arithmetic (frame rates, volume, the MP2 synthesis
  filterbank, resampling, float number formatting) and the main loop.

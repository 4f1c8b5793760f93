//! Native32 game emulator core: file format parsing, image decoding,
//! header decryption, the action bytecode machine, sprite and timeline state,
//! and the rendering and scaling logic that the front-ends drive.

pub mod actions;
pub mod frame_player;
pub mod image_decoder;
pub mod des_constants;
pub mod header_decryptor;
pub mod error;
pub mod text;
pub mod file_loader;
pub mod sprite_system;
pub mod content_loader;
pub mod mpeg;
pub mod dat_loader;
pub mod cheats;
pub mod action_vm;
pub mod save_manager;
pub mod renderer;
pub mod xbrz;
pub mod audio_engine;
pub mod file_browser;
pub mod gamepad_overlay;
pub mod scaler;
pub mod input_handler;
pub mod movies;
pub mod menu_text;
pub mod url_command;

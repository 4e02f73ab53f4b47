pub mod encoding;
mod text;
pub mod torrent;
pub mod utils;

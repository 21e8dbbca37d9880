pub mod inner_common;
pub mod rendering;
pub mod game_state;
pub mod Button;
pub mod circle;

pub use self::rendering::Framebuffer;

//! The window that the viewer opens.
//!
//! The settings are plain values; the program hands them to the windowing
//! engine, which fills in everything that is not named here.

use vstd::prelude::*;

verus! {

/// What the viewer asks of its window.
#[derive(Debug)]
pub struct WindowConf {
    /// The text in the title bar.
    pub title: String,
    /// The width in logical pixels.
    pub width: i32,
    /// The height in logical pixels.
    pub height: i32,
    /// Whether the window renders at the display's full pixel density.
    pub high_dpi: bool,
    /// Whether the window covers the whole screen.
    pub fullscreen: bool,
}

/// The viewer's window: titled "Binary Star System", 1260 by 768 logical
/// pixels, at full pixel density, not covering the screen.
pub fn conf() -> (conf: WindowConf)
    ensures
        conf.title@ == "Binary Star System"@,
        conf.width == 1260,
        conf.height == 768,
        conf.high_dpi,
        !conf.fullscreen,
{
    WindowConf {
        title: "Binary Star System".to_owned(),
        width: 1260,
        height: 768,
        high_dpi: true,
        fullscreen: false,
    }
}

} // verus!

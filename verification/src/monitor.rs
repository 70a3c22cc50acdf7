//! Monitors as captured from the display server.

use vstd::prelude::*;
use crate::text::{decode_latin1, latin1};

verus! {

/// One monitor of a snapshot.
#[derive(Debug)]
pub struct Monitor {
    /// Width in pixels.
    pub width: u32,
    /// Height in pixels.
    pub height: u32,
    /// Horizontal position of the top-left corner in the virtual screen.
    pub x: i16,
    /// Vertical position of the top-left corner in the virtual screen.
    pub y: i16,
    /// Whether the display server reports this monitor as the primary one.
    pub primary: bool,
    /// The monitor's name, as the display server labels it.
    pub name: String,
}

/// The mathematical value of a [`Monitor`].
pub ghost struct MonitorView {
    pub width: nat,
    pub height: nat,
    pub x: int,
    pub y: int,
    pub primary: bool,
    pub name: Seq<char>,
}

impl View for Monitor {
    type V = MonitorView;

    open spec fn view(&self) -> MonitorView {
        MonitorView {
            width: self.width as nat,
            height: self.height as nat,
            x: self.x as int,
            y: self.y as int,
            primary: self.primary,
            name: self.name@,
        }
    }
}

impl Clone for Monitor {
    fn clone(&self) -> (copy: Self)
        ensures
            copy@ == self@,
    {
        Monitor {
            width: self.width,
            height: self.height,
            x: self.x,
            y: self.y,
            primary: self.primary,
            name: self.name.clone(),
        }
    }
}

/// The views of a sequence of monitors, in the same order.
pub open spec fn snapshot(monitors: Seq<Monitor>) -> Seq<MonitorView> {
    Seq::new(monitors.len(), |i: int| monitors[i]@)
}

impl Monitor {
    /// Builds a monitor from the values the display server reports: its
    /// geometry, its primary flag and its name as Latin-1 bytes.
    pub fn from_raw(name: &[u8], x: i16, y: i16, width: u16, height: u16, primary: bool) -> (m:
        Monitor)
        ensures
            m@ == (MonitorView {
                width: width as nat,
                height: height as nat,
                x: x as int,
                y: y as int,
                primary,
                name: latin1(name@),
            }),
    {
        Monitor { width: width as u32, height: height as u32, x, y, primary, name: decode_latin1(name) }
    }
}

} // verus!

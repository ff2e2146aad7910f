//! Events as the host delivers them.

use vstd::prelude::*;

verus! {

/// An event in the document, as a listener's handler receives it.
#[derive(Debug, Copy, Clone, PartialEq, Eq)]
pub struct Event<'a> {
    /// The name of the event's type, where the host gave one.
    pub type_str: Option<&'a str>,
    /// The value of the element that the event came from, where it has one.
    pub target_value: Option<&'a str>,
    /// The pointer's place in the window.
    pub client_x: i32,
    pub client_y: i32,
    /// The pointer's place in the element.
    pub offset_x: i32,
    pub offset_y: i32,
    /// The code of the key that was pressed, or zero.
    pub which_keycode: i32,
    /// Which modifier keys were held.
    pub shift_key: bool,
    pub alt_key: bool,
    pub ctrl_key: bool,
    pub meta_key: bool,
}

impl<'a> Event<'a> {
    /// The event that the host's raw record stands for. The host sends each
    /// modifier as a number: 1 where the key was held, anything else where
    /// it was not.
    pub fn from_raw(
        type_str: Option<&'a str>,
        target_value: Option<&'a str>,
        client_x: i32,
        client_y: i32,
        offset_x: i32,
        offset_y: i32,
        which_keycode: i32,
        shift_key: i32,
        alt_key: i32,
        ctrl_key: i32,
        meta_key: i32,
    ) -> (event: Event<'a>)
        ensures
            event == (Event {
                type_str,
                target_value,
                client_x,
                client_y,
                offset_x,
                offset_y,
                which_keycode,
                shift_key: shift_key == 1,
                alt_key: alt_key == 1,
                ctrl_key: ctrl_key == 1,
                meta_key: meta_key == 1,
            }),
    {
        Event {
            type_str,
            target_value,
            client_x,
            client_y,
            offset_x,
            offset_y,
            which_keycode,
            shift_key: shift_key == 1,
            alt_key: alt_key == 1,
            ctrl_key: ctrl_key == 1,
            meta_key: meta_key == 1,
        }
    }
}

} // verus!

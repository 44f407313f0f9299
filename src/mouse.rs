use vstd::prelude::*;

verus! {

/// Where the mouse is, and where a drag started if one is under way.
#[derive(Clone, Copy, Debug)]
pub struct MousePositionController {
    pub current_mouse_position: (i32, i32),
    pub drag_start_position: Option<(i32, i32)>,
}

impl MousePositionController {
    pub fn new() -> (r: Self)
        ensures
            r.current_mouse_position == (0i32, 0i32),
            r.drag_start_position is None,
    {
        MousePositionController { current_mouse_position: (0, 0), drag_start_position: None }
    }

    pub fn update_position_mut(&mut self, new_position: (i32, i32))
        ensures
            final(self).current_mouse_position == new_position,
            final(self).drag_start_position == old(self).drag_start_position,
    {
        self.current_mouse_position = new_position;
    }

    pub fn is_dragging(&self) -> (r: bool)
        ensures
            r == self.drag_start_position is Some,
    {
        self.drag_start_position.is_some()
    }

    /// A press starts a drag at the current position; a release ends it.
    pub fn update_drag_position_mut(&mut self, pressed: bool)
        ensures
            final(self).current_mouse_position == old(self).current_mouse_position,
            final(self).drag_start_position == (if pressed {
                Some(old(self).current_mouse_position)
            } else {
                None
            }),
    {
        self.drag_start_position = if pressed { Some(self.current_mouse_position) } else { None };
    }
}

} // verus!

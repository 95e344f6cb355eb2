use vstd::prelude::*;
use crate::edit::EditState;

verus! {

/// The number of the drawing mode.
pub const PS_DRAW_NUM: usize = 0;

/// The number of the editing mode.
pub const PS_EDIT_NUM: usize = 1;

/// The number of the annotation mode.
pub const PS_ANNOTATE_NUM: usize = 2;

/// The mode of the program; `A` is the annotation mode's own state.
pub enum ProgramState<A> {
    Draw,
    Edit(EditState),
    Annotate(A),
}

impl<A> ProgramState<A> {
    /// The number of the mode.
    pub open spec fn spec_num(&self) -> usize {
        match self {
            ProgramState::Draw => PS_DRAW_NUM,
            ProgramState::Edit(_) => PS_EDIT_NUM,
            ProgramState::Annotate(_) => PS_ANNOTATE_NUM,
        }
    }

    /// The number of the mode, as the menu shows it.
    pub fn to_num(&self) -> (r: usize)
        ensures
            r == self.spec_num(),
    {
        match self {
            ProgramState::Draw => PS_DRAW_NUM,
            ProgramState::Edit(_) => PS_EDIT_NUM,
            ProgramState::Annotate(_) => PS_ANNOTATE_NUM,
        }
    }
}

/// The choices made in the menu.
#[derive(PartialEq, Eq, Structural, Clone, Copy, Debug)]
pub struct GUIState {
    /// Dragging peels the chain outward as the pointer moves away.
    pub using_peeling: bool,
    /// The menu took the pointer in the last frame.
    pub used_mouse: bool,
}

/// The keys the program listens to.
#[derive(PartialEq, Eq, Structural, Clone, Copy, Debug)]
pub struct KeyState {
    pub enter: bool,
}

/// The primary pointer button in this frame and the one before.
#[derive(PartialEq, Eq, Structural, Clone, Copy, Debug)]
pub struct ButtonState {
    pub button1_pressed: bool,
    pub button1_was_pressed: bool,
}

impl ButtonState {
    /// Starts a new frame: what was held is now what was held before.
    pub fn tick(&mut self)
        ensures
            final(self).button1_was_pressed == old(self).button1_pressed,
            final(self).button1_pressed == old(self).button1_pressed,
    {
        self.button1_was_pressed = self.button1_pressed;
    }

    /// A press or release of the primary button; one that the menu took is not
    /// the editor's.
    pub fn button1_event(&mut self, gui_state: &GUIState, press: bool)
        ensures
            final(self).button1_pressed == if gui_state.used_mouse {
                old(self).button1_pressed
            } else {
                press
            },
            final(self).button1_was_pressed == old(self).button1_was_pressed,
    {
        if !gui_state.used_mouse {
            self.button1_pressed = press;
        }
    }
}

/// After the menu ran: entering the editing mode, or switching peeling on or off
/// while in it, empties the selection. `old_program_num` and `old_gui_state` are the
/// mode and the menu before the menu ran.
pub fn handle_gui_update<A>(
    program_state: &mut ProgramState<A>,
    old_program_num: usize,
    old_gui_state: &GUIState,
    gui_state: &GUIState,
)
    ensures
        match (*old(program_state), *final(program_state)) {
            (ProgramState::Edit(e0), ProgramState::Edit(e1)) => {
                &&& e1.state == e0.state
                &&& e1.curr_cylinder == e0.curr_cylinder
                &&& if gui_state.using_peeling != old_gui_state.using_peeling || old_program_num
                    != PS_EDIT_NUM {
                    e1.selected_indices@ == Seq::<usize>::empty()
                } else {
                    e1.selected_indices@ == e0.selected_indices@
                }
            },
            (ProgramState::Edit(_), _) => false,
            (_, after) => after == *old(program_state),
        },
{
    match program_state {
        ProgramState::Edit(edit_state) => {
            if gui_state.using_peeling != old_gui_state.using_peeling || PS_EDIT_NUM
                != old_program_num {
                edit_state.clear_selected();
            }
        },
        _ => {},
    }
}

} // verus!

//! What the window does on each event.
use vstd::prelude::*;

verus! {

/// The keys that mean something.
#[derive(Clone, Copy, Debug, PartialEq, Eq, Structural)]
pub enum Key {
    Space,
    R,
    Q,
    Escape,
    Other,
}

/// The events of the window.
#[derive(Clone, Copy, Debug, PartialEq, Eq, Structural)]
pub enum UiEvent {
    /// The window is to be closed.
    CloseRequested,
    /// A key was pressed.
    KeyPressed(Key),
    /// There is nothing else to do.
    MainEventsCleared,
    /// The picture is to be drawn; `second_passed` if the frame rate was last shown at
    /// least a second ago.
    RedrawRequested { second_passed: bool },
    /// Anything else.
    Other,
}

/// What to do on an event.
#[derive(Clone, Copy, Debug, PartialEq, Eq, Structural)]
pub enum UiAction {
    Nothing,
    Exit,
    /// Fill the channels with new noise.
    Reset,
    /// Iterate if told so, and ask for the picture to be drawn.
    Advance { iterate: bool },
    /// Print the state of the channels at `report`, the number of frames since the
    /// frame rate was shown; show the frame rate for `frame_rate` frames; and draw the
    /// picture.
    Draw { report: Option<u32>, frame_rate: Option<u32> },
}

/// The state of the window.
#[derive(Debug)]
pub struct Ui {
    pub paused: bool,
    /// Frames since the frame rate was last shown.
    pub frame_count: u32,
    /// Frames since the start.
    pub total_frames: u32,
}

/// The frames at which the state of the channels is printed.
pub open spec fn is_report_frame(frame: u32) -> bool {
    frame == 10 || frame == 30 || frame == 60 || frame == 120
}

/// What to do on an event.
pub open spec fn action_of(ui: Ui, event: UiEvent) -> UiAction {
    match event {
        UiEvent::CloseRequested => UiAction::Exit,
        UiEvent::KeyPressed(key) => match key {
            Key::R => UiAction::Reset,
            Key::Q | Key::Escape => UiAction::Exit,
            Key::Space | Key::Other => UiAction::Nothing,
        },
        UiEvent::MainEventsCleared => UiAction::Advance { iterate: !ui.paused },
        UiEvent::RedrawRequested { second_passed } => UiAction::Draw {
            report: if is_report_frame(ui.total_frames) {
                Some(ui.frame_count)
            } else {
                None
            },
            frame_rate: if second_passed {
                Some((ui.frame_count + 1) as u32)
            } else {
                None
            },
        },
        UiEvent::Other => UiAction::Nothing,
    }
}

/// The state of the window after an event.
pub open spec fn state_after(ui: Ui, event: UiEvent) -> Ui {
    match event {
        UiEvent::KeyPressed(Key::Space) => Ui { paused: !ui.paused, ..ui },
        UiEvent::RedrawRequested { second_passed } => Ui {
            paused: ui.paused,
            frame_count: if second_passed {
                0
            } else {
                (ui.frame_count + 1) as u32
            },
            total_frames: (ui.total_frames + 1) as u32,
        },
        _ => ui,
    }
}

impl Ui {
    /// The window at the start.
    pub fn new() -> (ui: Ui)
        ensures
            ui == (Ui { paused: false, frame_count: 0, total_frames: 0 }),
    {
        Ui { paused: false, frame_count: 0, total_frames: 0 }
    }

    /// Takes note of an event and says what to do. Frames are counted as long as the
    /// count fits in 32 bits.
    pub fn handle(&mut self, event: UiEvent) -> (action: UiAction)
        requires
            old(self).frame_count <= old(self).total_frames < u32::MAX,
        ensures
            action == action_of(*old(self), event),
            *final(self) == state_after(*old(self), event),
            final(self).frame_count <= final(self).total_frames,
    {
        match event {
            UiEvent::CloseRequested => UiAction::Exit,
            UiEvent::KeyPressed(key) => match key {
                Key::Space => {
                    self.paused = !self.paused;
                    UiAction::Nothing
                },
                Key::R => UiAction::Reset,
                Key::Q | Key::Escape => UiAction::Exit,
                Key::Other => UiAction::Nothing,
            },
            UiEvent::MainEventsCleared => UiAction::Advance { iterate: !self.paused },
            UiEvent::RedrawRequested { second_passed } => {
                let total: u32 = self.total_frames;
                let report: Option<u32> = if total == 10 || total == 30 || total == 60 || total
                    == 120 {
                    Some(self.frame_count)
                } else {
                    None
                };
                self.frame_count = self.frame_count + 1;
                self.total_frames = self.total_frames + 1;
                let frame_rate: Option<u32> = if second_passed {
                    let frames: u32 = self.frame_count;
                    self.frame_count = 0;
                    Some(frames)
                } else {
                    None
                };
                UiAction::Draw { report, frame_rate }
            },
            UiEvent::Other => UiAction::Nothing,
        }
    }
}

/// Pausing and resuming: a press of the space bar stops the iterations if they run and
/// starts them if they do not, and a second press leaves the state as it was.
pub proof fn space_pauses_and_resumes(ui: Ui)
    ensures
        ({
            let pressed = state_after(ui, UiEvent::KeyPressed(Key::Space));
            &&& action_of(ui, UiEvent::MainEventsCleared) == (UiAction::Advance {
                iterate: !ui.paused,
            })
            &&& action_of(pressed, UiEvent::MainEventsCleared) == (UiAction::Advance {
                iterate: ui.paused,
            })
            &&& state_after(pressed, UiEvent::KeyPressed(Key::Space)) == ui
        }),
{
}

} // verus!

//! What each event does to the window, and what it does not.
use crate::ui::{action_of, state_after, Key, Ui, UiAction, UiEvent};
use vstd::prelude::*;

verus! {

/// Only the space bar pauses and resumes, and only drawing counts frames.
pub proof fn other_events_leave_the_window_alone(ui: Ui, event: UiEvent)
    ensures
        event != UiEvent::KeyPressed(Key::Space) ==> state_after(ui, event).paused == ui.paused,
        event == UiEvent::KeyPressed(Key::Space) ==> state_after(ui, event).paused == !ui.paused,
        !(event is RedrawRequested) ==> state_after(ui, event).frame_count == ui.frame_count
            && state_after(ui, event).total_frames == ui.total_frames,
{
}

/// Closing the window, Q and Escape end the program, and nothing else does; R alone fills
/// the channels with new noise.
pub proof fn keys_end_and_reset_the_program(ui: Ui, event: UiEvent)
    ensures
        action_of(ui, event) == UiAction::Exit <==> event == UiEvent::CloseRequested || event
            == UiEvent::KeyPressed(Key::Q) || event == UiEvent::KeyPressed(Key::Escape),
        action_of(ui, event) == UiAction::Reset <==> event == UiEvent::KeyPressed(Key::R),
        action_of(ui, event) == UiAction::Nothing <==> event == UiEvent::KeyPressed(Key::Space)
            || event == UiEvent::KeyPressed(Key::Other) || event == UiEvent::Other,
        action_of(ui, event) is Advance <==> event == UiEvent::MainEventsCleared,
        action_of(ui, event) is Draw <==> event is RedrawRequested,
{
}

/// The channels are iterated when there is nothing else to do, unless the window is
/// paused.
pub proof fn iterations_run_unless_paused(ui: Ui)
    ensures
        action_of(ui, UiEvent::MainEventsCleared) == (UiAction::Advance { iterate: !ui.paused }),
{
}

/// Drawing counts a frame. Every second the frame rate is shown, which is the number of
/// frames since it was last shown, this one among them, and counting starts anew. The
/// state is printed at frames 10, 30, 60 and 120, and at no other.
pub proof fn drawing_counts_frames(ui: Ui, second_passed: bool)
    requires
        ui.frame_count <= ui.total_frames < u32::MAX,
    ensures
        ({
            let event = UiEvent::RedrawRequested { second_passed };
            let after = state_after(ui, event);
            let n = ui.total_frames;
            &&& after.total_frames == ui.total_frames + 1
            &&& after.frame_count == if second_passed {
                0
            } else {
                ui.frame_count + 1
            }
            &&& action_of(ui, event) matches UiAction::Draw { report, frame_rate } && (report
                == if n == 10 || n == 30 || n == 60 || n == 120 {
                Some(ui.frame_count)
            } else {
                None
            }) && (second_passed ==> frame_rate is Some && frame_rate->0 == ui.frame_count + 1) && (
            !second_passed ==> frame_rate is None)
        }),
{
}

} // verus!

//! The protocol between the formatter and its caller: a caller that does what each step
//! asks for is never refused.
use crate::escape::none_empty;
use crate::format::{
    frame_step_of, machine_step_of, resume_of, ActionView, ErrorView, EventView, FormatContext,
    FrameView, OutcomeView, StageView,
};
use vstd::prelude::*;

verus! {

/// A frame that waits for the text of one of its regions: it knows its regions, one of
/// them is on its way, and that one has no result yet.
pub open spec fn frame_waits(frame: FrameView) -> bool {
    match frame.stage {
        StageView::Regions { regions, results, job: Some(job) } => none_empty(job.escapes)
            && results.len() < regions.len(),
        _ => false,
    }
}

/// A frame that can take a step: where it knows its regions, none of them is on its
/// way, and it has no more results than regions.
pub open spec fn frame_runs(frame: FrameView) -> bool {
    match frame.stage {
        StageView::Regions { regions, results, job } => job is None && results.len()
            <= regions.len(),
        _ => true,
    }
}

/// The stack of a machine is in order: the frame on top can take a step, and every
/// frame below it waits for the text of a region.
pub open spec fn in_order(frames: Seq<FrameView>) -> bool {
    &&& forall|i: int| 0 <= i < frames.len() - 1 ==> frame_waits(#[trigger] frames[i])
    &&& frames.len() > 0 ==> frame_runs(frames.last())
}

/// The event is what a frame at `stage` waits for: the answer to what it asked, or
/// nothing where it asked for nothing.
pub open spec fn answers(event: EventView, stage: StageView) -> bool {
    match stage {
        StageView::AwaitFormatter { .. } => event is Formatted,
        StageView::AwaitRegions => event is Extracted,
        _ => event is Resume,
    }
}

/// The action asks for what the machine then waits for: a run of a formatter when the
/// frame on top waits for a formatter, the regions when it waits for regions, nothing
/// when it waits for nothing, and the end when no frame is left.
pub open spec fn asks_for(action: ActionView, frames: Seq<FrameView>) -> bool {
    match action {
        ActionView::Continue => frames.len() > 0 && answers(
            EventView::Resume,
            frames.last().stage,
        ),
        ActionView::Format { .. } => frames.len() > 0 && frames.last().stage is AwaitFormatter,
        ActionView::FormatAlternate { .. } => frames.len() > 0
            && frames.last().stage is AwaitFormatter,
        ActionView::Extract { .. } => frames.len() > 0 && frames.last().stage is AwaitRegions,
        ActionView::Done(_) => frames.len() == 0,
        ActionView::Failed(_) => frames.len() == 0,
    }
}

/// The protocol holds from step to step. A machine whose stack is in order, handed what
/// its top frame waits for, has its stack in order after the step, asks for what it
/// then waits for, and does not refuse what it was handed.
pub proof fn machine_keeps_its_protocol(
    context: FormatContext,
    format_root: bool,
    frames: Seq<FrameView>,
    event: EventView,
)
    requires
        in_order(frames),
        frames.len() > 0,
        answers(event, frames.last().stage),
    ensures
        ({
            let step = machine_step_of(context, format_root, frames, event);
            &&& in_order(step.0)
            &&& asks_for(step.1, step.0)
            &&& step.1 != ActionView::Failed(ErrorView::Unexpected)
        }),
{
    let top = frames.last();
    let below = frames.drop_last();
    let step = machine_step_of(context, format_root, frames, event);
    assert forall|i: int| 0 <= i < below.len() implies frame_waits(#[trigger] below[i]) by {
        assert(below[i] == frames[i]);
    }
    match frame_step_of(context, format_root, top, event) {
        OutcomeView::Continue(frame) => {
            let next = below.push(frame);
            assert(next.last() == frame);
            assert forall|i: int| 0 <= i < next.len() - 1 implies frame_waits(
                #[trigger] next[i],
            ) by {
                assert(next[i] == below[i]);
            }
        },
        OutcomeView::Run(frame, action) => {
            let next = below.push(frame);
            assert(next.last() == frame);
            assert forall|i: int| 0 <= i < next.len() - 1 implies frame_waits(
                #[trigger] next[i],
            ) by {
                assert(next[i] == below[i]);
            }
        },
        OutcomeView::Descend(frame, child) => {
            let next = below.push(frame).push(child);
            assert(next.last() == child);
            match top.stage {
                StageView::Regions { regions, results, job } => {
                    crate::escape::lemma_without_empty(
                        crate::escape::sorted_escapes_of(
                            regions[results.len() as int].escape_chars,
                        ),
                    );
                },
                _ => {},
            }
            assert forall|i: int| 0 <= i < next.len() - 1 implies frame_waits(
                #[trigger] next[i],
            ) by {
                if i < below.len() {
                    assert(next[i] == below[i]);
                } else {
                    assert(next[i] == frame);
                }
            }
        },
        OutcomeView::Fail(error) => {},
        OutcomeView::Complete(text) => {
            if below.len() > 0 {
                let parent = below.last();
                assert(parent == below[below.len() - 1]);
                assert(frame_waits(parent));
                match resume_of(parent, text) {
                    Ok(resumed) => {
                        let next = below.drop_last().push(resumed);
                        assert(next.last() == resumed);
                        assert forall|i: int| 0 <= i < next.len() - 1 implies frame_waits(
                            #[trigger] next[i],
                        ) by {
                            assert(next[i] == below[i]);
                        }
                    },
                    Err(error) => {},
                }
            }
        },
    }
}

/// A machine that has just been made has its stack in order and waits for nothing.
pub proof fn new_machine_is_in_order(frame: FrameView)
    requires
        frame.stage == (StageView::Formatting { next: 0 }),
    ensures
        in_order(seq![frame]),
        answers(EventView::Resume, seq![frame].last().stage),
{
    assert(seq![frame].last() == frame);
}

} // verus!

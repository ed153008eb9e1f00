//! Byte accounting for a whole run of the machine. Where every formatter hands back the
//! text that it was given, and every region that comes back as it was goes back into
//! its document as it stood there, a run that comes to its end gives the document as it
//! was.
use crate::format::{
    frame_of_unchanged_regions_is_unchanged, frame_step_of, machine_step_of, resume_of,
    view_ranges, ActionView, EventView, FormatContext, FrameView, OutcomeView, StageView,
};
use crate::injections::RegionView;
use crate::region::{finished_of, job_of, RegionError};
use crate::splice::sorted_regions_of;
use vstd::prelude::*;

verus! {

/// The region keeps its bytes: where it can be prepared, and what was handed on comes
/// back as it was and can be finished, what goes back into the document is the region
/// as it stood there.
pub open spec fn keeps_its_bytes(buffer: Seq<u8>, region: RegionView, printwidth: u32) -> bool {
    match job_of(buffer, region, printwidth) {
        Ok(job) => match finished_of(job, job.input) {
            Ok(bytes) => bytes == buffer.subrange(
                region.range.start_byte as int,
                region.range.end_byte as int,
            ),
            Err(_) => true,
        },
        Err(_) => true,
    }
}

/// The event does no harm to the frame that it is handed to: a formatter hands back
/// the text of the frame, and each region that is reported keeps its bytes.
pub open spec fn harmless(event: EventView, frame: FrameView) -> bool {
    match event {
        EventView::Formatted(Ok(bytes)) => bytes == frame.buffer,
        EventView::Extracted(Ok(regions)) => forall|i: int|
            0 <= i < sorted_regions_of(regions).len() ==> keeps_its_bytes(
                frame.buffer,
                #[trigger] sorted_regions_of(regions)[i],
                frame.printwidth,
            ),
        _ => true,
    }
}

/// The frame has its text as it was: each of its regions keeps its bytes, each result
/// so far is its region as it stands in the text, and the region that is on its way is
/// the next without a result.
pub open spec fn frame_intact(frame: FrameView) -> bool {
    match frame.stage {
        StageView::Regions { regions, results, job } => {
            &&& results.len() <= regions.len()
            &&& forall|i: int|
                0 <= i < regions.len() ==> keeps_its_bytes(
                    frame.buffer,
                    #[trigger] regions[i],
                    frame.printwidth,
                )
            &&& forall|i: int|
                0 <= i < results.len() ==> #[trigger] results[i] == frame.buffer.subrange(
                    regions[i].range.start_byte as int,
                    regions[i].range.end_byte as int,
                )
            &&& job matches Some(sent) ==> results.len() < regions.len() && job_of(
                frame.buffer,
                regions[results.len() as int],
                frame.printwidth,
            ) == Ok::<crate::region::JobView, RegionError>(sent)
        },
        _ => true,
    }
}

/// The text of `child` is the text of the region that `parent` has sent on its way.
pub open spec fn sent_from(parent: FrameView, child: FrameView) -> bool {
    match parent.stage {
        StageView::Regions { job: Some(sent), .. } => child.buffer == sent.input,
        _ => false,
    }
}

/// The stack holds the document `source` as it was: the first frame has it as its
/// text, every frame has its text as it was, and every other frame has the text of the
/// region that the frame below it has sent on its way.
pub open spec fn stack_intact(frames: Seq<FrameView>, source: Seq<u8>) -> bool {
    &&& frames.len() > 0
    &&& frames[0].buffer == source
    &&& forall|k: int| 0 <= k < frames.len() ==> frame_intact(#[trigger] frames[k])
    &&& forall|k: int| 0 < k < frames.len() ==> sent_from(frames[k - 1], #[trigger] frames[k])
}

/// One step of a frame that has its text as it was, on an event that does no harm: the
/// frame keeps its text and has it as it was, a frame that it sends off has the text of
/// the region on its way, and a frame that is through is through with its text.
proof fn lemma_frame_stays_intact(
    context: FormatContext,
    format_root: bool,
    frame: FrameView,
    event: EventView,
)
    requires
        frame_intact(frame),
        harmless(event, frame),
    ensures
        match frame_step_of(context, format_root, frame, event) {
            OutcomeView::Continue(next) => next.buffer == frame.buffer && frame_intact(next),
            OutcomeView::Run(next, _) => next.buffer == frame.buffer && frame_intact(next),
            OutcomeView::Descend(next, child) => next.buffer == frame.buffer && frame_intact(next)
                && frame_intact(child) && sent_from(next, child),
            OutcomeView::Complete(text) => text == frame.buffer,
            OutcomeView::Fail(_) => true,
        },
{
    match frame.stage {
        StageView::Regions { regions, results, job } => {
            if event is Resume && job is None && results.len() == regions.len() {
                if crate::splice::spliceable(view_ranges(regions), frame.buffer.len() as int) {
                    frame_of_unchanged_regions_is_unchanged(frame, regions, results);
                }
            }
        },
        _ => {},
    }
}

/// Byte accounting for a whole run. A machine whose stack holds the document as it
/// was, handed an event that does no harm to its top frame, either fails, or is done
/// with the document as it was, or has a stack that holds the document as it was. So a
/// run in which every formatter hands back what it was given, and every region keeps
/// its bytes, ends with the document unchanged if it ends without failure.
pub proof fn unchanged_run_keeps_the_document(
    context: FormatContext,
    format_root: bool,
    frames: Seq<FrameView>,
    event: EventView,
    source: Seq<u8>,
)
    requires
        stack_intact(frames, source),
        harmless(event, frames.last()),
    ensures
        match machine_step_of(context, format_root, frames, event).1 {
            ActionView::Done(text) => text == source,
            ActionView::Failed(_) => true,
            _ => stack_intact(machine_step_of(context, format_root, frames, event).0, source),
        },
{
    let top = frames.last();
    let below = frames.drop_last();
    let after = machine_step_of(context, format_root, frames, event).0;
    lemma_frame_stays_intact(context, format_root, top, event);
    match frame_step_of(context, format_root, top, event) {
        OutcomeView::Continue(next) => {
            lemma_top_replaced(frames, next, source);
        },
        OutcomeView::Run(next, _) => {
            lemma_top_replaced(frames, next, source);
        },
        OutcomeView::Descend(next, child) => {
            lemma_top_replaced(frames, next, source);
            let held = below.push(next);
            let grown = held.push(child);
            assert forall|k: int| 0 <= k < grown.len() implies frame_intact(#[trigger] grown[k]) by {
                if k < held.len() {
                    assert(grown[k] == held[k]);
                }
            }
            assert forall|k: int| 0 < k < grown.len() implies sent_from(
                grown[k - 1],
                #[trigger] grown[k],
            ) by {
                if k < held.len() {
                    assert(grown[k] == held[k]);
                    assert(grown[k - 1] == held[k - 1]);
                }
            }
            assert(grown[0] == held[0]);
        },
        OutcomeView::Complete(text) => {
            if below.len() > 0 {
                let parent = below.last();
                assert(parent == frames[frames.len() - 2]);
                assert(sent_from(frames[frames.len() - 2], frames[frames.len() - 1]));
                assert(frame_intact(parent));
                match resume_of(parent, text) {
                    Ok(resumed) => {
                        assert(resumed.buffer == parent.buffer);
                        assert(frame_intact(resumed));
                        lemma_top_replaced(below, resumed, source);
                    },
                    Err(_) => {},
                }
            } else {
                assert(frames[0] == top);
            }
        },
        OutcomeView::Fail(_) => {},
    }
}

/// A stack stays as it was when its top frame gives way to one with the same text that
/// has its text as it was.
proof fn lemma_top_replaced(frames: Seq<FrameView>, next: FrameView, source: Seq<u8>)
    requires
        frames.len() > 0,
        frames[0].buffer == source,
        forall|k: int| 0 <= k < frames.len() - 1 ==> frame_intact(#[trigger] frames[k]),
        forall|k: int| 0 < k < frames.len() ==> sent_from(frames[k - 1], #[trigger] frames[k]),
        next.buffer == frames.last().buffer,
        frame_intact(next),
    ensures
        stack_intact(frames.drop_last().push(next), source),
{
    let after = frames.drop_last().push(next);
    assert forall|k: int| 0 <= k < after.len() implies frame_intact(#[trigger] after[k]) by {
        if k < after.len() - 1 {
            assert(after[k] == frames[k]);
        }
    }
    assert forall|k: int| 0 < k < after.len() implies sent_from(after[k - 1], #[trigger] after[k]) by {
        assert(after[k - 1] == frames[k - 1]);
        assert(sent_from(frames[k - 1], frames[k]));
    }
}

/// A machine that has just been made holds the document as it was.
pub proof fn new_machine_is_intact(frame: FrameView)
    requires
        frame.stage == (StageView::Formatting { next: 0 }),
    ensures
        stack_intact(seq![frame], frame.buffer),
{
    assert(seq![frame][0] == frame);
}

} // verus!

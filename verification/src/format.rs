//! The recursive formatter, as a machine that decides and lets its caller act.
//!
//! Formatting a document alternates between decisions and work that only the outside
//! can do: running an external formatter, parsing a document. The machine makes the
//! decisions. Each step takes what the outside has brought, moves the machine on, and
//! says what the outside shall do next. The caller runs the loop.
//!
//! The machine holds a stack of frames, one for the document and one for each region
//! that is being formatted inside another. A frame first runs the formatters of its
//! language, then asks for its regions, then sends each region through a frame of its
//! own, and at last puts the formatted regions back.
use crate::config::{
    find_formatter, find_language, formatter_names, language_names, LanguageFormatters,
    NamedFormatter,
};
use crate::extract::ExtractError;
use crate::grammar::{
    canonical_language, canonical_name, find_name, name_views, position_of, resolve_language,
    resolved_name, LanguageAlias,
};
use crate::injections::{region_views, InjectedRegion, RegionView};
use crate::region::{
    finish_region, finished_of, job_of, prepare_region, JobView, RegionError, RegionJob,
};
use crate::splice::{
    byte_views, region_ranges, regions_spliceable, sort_regions, sorted_regions_of, splice_all,
    splice_all_of, spliceable,
};
use vstd::prelude::*;
use vstd::slice::slice_to_vec;
use vstd::string::StringExecFns;

verus! {

/// What a document is formatted with: the print width and the language of the document.
#[derive(Clone, Copy, Debug, PartialEq, Eq)]
pub struct FormatOpts<'a> {
    pub printwidth: u32,
    pub language: &'a str,
}

/// What the formatter knows of its surroundings: the languages that have a grammar, the
/// formatters of each language, the aliases of languages, the external formatters by
/// name, and the names of the formatters that the alternate registry knows.
#[derive(Clone, Debug, PartialEq, Eq)]
pub struct FormatContext {
    pub grammars: Vec<String>,
    pub languages: Vec<LanguageFormatters>,
    pub language_aliases: Vec<LanguageAlias>,
    pub formatters: Vec<NamedFormatter>,
    pub alternate_formatters: Vec<String>,
}

/// Why formatting failed.
#[derive(Clone, Debug, PartialEq, Eq)]
pub enum FormatError {
    /// A formatter gave back an empty text. The string names the formatter.
    EmptyResult(String),
    /// A region could not be handed on or taken back.
    Region(RegionError),
    /// The regions of a document overlap or do not lie in it.
    Overlap,
    /// The regions of a document could not be found.
    Extract(ExtractError),
    /// An external formatter failed. The string says how.
    Formatter(String),
    /// The machine was handed something that it had not asked for.
    Unexpected,
}

/// An error as plain values.
pub enum ErrorView {
    EmptyResult(Seq<char>),
    Region(RegionError),
    Overlap,
    Extract(ExtractError),
    Formatter(Seq<char>),
    Unexpected,
}

impl View for FormatError {
    type V = ErrorView;

    open spec fn view(&self) -> ErrorView {
        match self {
            FormatError::EmptyResult(name) => ErrorView::EmptyResult(name@),
            FormatError::Region(error) => ErrorView::Region(*error),
            FormatError::Overlap => ErrorView::Overlap,
            FormatError::Extract(error) => ErrorView::Extract(*error),
            FormatError::Formatter(message) => ErrorView::Formatter(message@),
            FormatError::Unexpected => ErrorView::Unexpected,
        }
    }
}

/// The words in front of the name of a formatter that gave back an empty text.
pub open spec fn empty_result_words() -> Seq<char> {
    "Unexpected empty result received from formatter: "@
}

/// An error of a region in words.
pub open spec fn region_message_of(error: RegionError) -> Seq<char> {
    match error {
        RegionError::OutOfBounds => "Injected region lies outside of the document"@,
        RegionError::InvalidUtf8 => "invalid utf-8 sequence in injected region"@,
    }
}

/// An error of the extraction in words.
pub open spec fn extract_message_of(error: ExtractError) -> Seq<char> {
    match error {
        ExtractError::InvalidUtf8 => "invalid utf-8 sequence in source"@,
        ExtractError::Language => "Incompatible language"@,
        ExtractError::Parse => "Parse returned None"@,
    }
}

/// An error in words. An empty result names the formatter that gave it.
pub open spec fn message_of(error: ErrorView) -> Seq<char> {
    match error {
        ErrorView::EmptyResult(name) => empty_result_words() + name,
        ErrorView::Region(error) => region_message_of(error),
        ErrorView::Overlap => "Injected regions overlap"@,
        ErrorView::Extract(error) => extract_message_of(error),
        ErrorView::Formatter(message) => message,
        ErrorView::Unexpected => "Unexpected event"@,
    }
}

impl FormatError {
    /// The error in words.
    pub fn message(&self) -> (text: String)
        ensures
            text@ == message_of(self@),
    {
        match self {
            FormatError::EmptyResult(name) => {
                let mut text = "Unexpected empty result received from formatter: ".to_owned();
                text.append(name.as_str());
                text
            },
            FormatError::Region(RegionError::OutOfBounds) => {
                "Injected region lies outside of the document".to_owned()
            },
            FormatError::Region(RegionError::InvalidUtf8) => {
                "invalid utf-8 sequence in injected region".to_owned()
            },
            FormatError::Overlap => "Injected regions overlap".to_owned(),
            FormatError::Extract(error) => error.message(),
            FormatError::Formatter(message) => message.clone(),
            FormatError::Unexpected => "Unexpected event".to_owned(),
        }
    }
}

/// Where a frame stands.
#[derive(Clone, Debug, PartialEq, Eq)]
pub enum Stage {
    /// The formatters of the language are being run; `next` is the place of the next
    /// one to look at.
    Formatting { next: usize },
    /// The formatter at `next` is running; `label` names it.
    AwaitFormatter { next: usize, label: String },
    /// The formatters are through; the grammar is looked up next.
    Resolve,
    /// The regions of the document have been asked for.
    AwaitRegions,
    /// The regions are known. `results` holds what came back for the first of them, and
    /// `job` is the region that is on its way.
    Regions { regions: Vec<InjectedRegion>, results: Vec<Vec<u8>>, job: Option<RegionJob> },
}

/// A stage as plain values.
pub enum StageView {
    Formatting { next: usize },
    AwaitFormatter { next: usize, label: Seq<char> },
    Resolve,
    AwaitRegions,
    Regions { regions: Seq<RegionView>, results: Seq<Seq<u8>>, job: Option<JobView> },
}

/// An optional job as plain values.
pub open spec fn job_view(job: Option<RegionJob>) -> Option<JobView> {
    match job {
        Some(j) => Some(j@),
        None => None,
    }
}

impl View for Stage {
    type V = StageView;

    open spec fn view(&self) -> StageView {
        match self {
            Stage::Formatting { next } => StageView::Formatting { next: *next },
            Stage::AwaitFormatter { next, label } => StageView::AwaitFormatter {
                next: *next,
                label: label@,
            },
            Stage::Resolve => StageView::Resolve,
            Stage::AwaitRegions => StageView::AwaitRegions,
            Stage::Regions { regions, results, job } => StageView::Regions {
                regions: region_views(regions@),
                results: byte_views(results@),
                job: job_view(*job),
            },
        }
    }
}

/// One level of formatting: a text, the print width and the language it is formatted
/// with, whether it is the document itself, and where its formatting stands.
#[derive(Clone, Debug, PartialEq, Eq)]
pub struct Frame {
    pub buffer: Vec<u8>,
    pub printwidth: u32,
    pub language: String,
    pub is_root: bool,
    pub stage: Stage,
}

/// A frame as plain values.
pub struct FrameView {
    pub buffer: Seq<u8>,
    pub printwidth: u32,
    pub language: Seq<char>,
    pub is_root: bool,
    pub stage: StageView,
}

impl View for Frame {
    type V = FrameView;

    open spec fn view(&self) -> FrameView {
        FrameView {
            buffer: self.buffer@,
            printwidth: self.printwidth,
            language: self.language@,
            is_root: self.is_root,
            stage: self.stage@,
        }
    }
}

/// What the caller shall do before the next step.
#[derive(Clone, Debug, PartialEq, Eq)]
pub enum Action {
    /// Nothing: step again with `Event::Resume`.
    Continue,
    /// Run the external formatter at the place `formatter` of the context on `input`
    /// and hand back what it printed.
    Format { formatter: usize, input: Vec<u8>, printwidth: u32, language: String },
    /// Run the formatter `name` of the alternate registry on `input` and hand back
    /// what it gave.
    FormatAlternate { name: String, input: Vec<u8>, printwidth: u32, language: String },
    /// Find the regions of `source` with the grammar at the place `grammar` of the
    /// context and hand them back.
    Extract { grammar: usize, source: Vec<u8> },
    /// Formatting is through: this is the formatted document.
    Done(Vec<u8>),
    /// Formatting has failed.
    Failed(FormatError),
}

/// An action as plain values.
pub enum ActionView {
    Continue,
    Format { formatter: usize, input: Seq<u8>, printwidth: u32, language: Seq<char> },
    FormatAlternate { name: Seq<char>, input: Seq<u8>, printwidth: u32, language: Seq<char> },
    Extract { grammar: usize, source: Seq<u8> },
    Done(Seq<u8>),
    Failed(ErrorView),
}

impl View for Action {
    type V = ActionView;

    open spec fn view(&self) -> ActionView {
        match self {
            Action::Continue => ActionView::Continue,
            Action::Format { formatter, input, printwidth, language } => ActionView::Format {
                formatter: *formatter,
                input: input@,
                printwidth: *printwidth,
                language: language@,
            },
            Action::FormatAlternate { name, input, printwidth, language } => {
                ActionView::FormatAlternate {
                    name: name@,
                    input: input@,
                    printwidth: *printwidth,
                    language: language@,
                }
            },
            Action::Extract { grammar, source } => ActionView::Extract {
                grammar: *grammar,
                source: source@,
            },
            Action::Done(bytes) => ActionView::Done(bytes@),
            Action::Failed(error) => ActionView::Failed(error@),
        }
    }
}

/// What the caller brings to a step.
#[derive(Debug, PartialEq, Eq)]
pub enum Event {
    /// Nothing: the machine goes on by itself.
    Resume,
    /// What a formatter gave for the input it was run on, or how it failed.
    Formatted(Result<Vec<u8>, String>),
    /// The regions of the source that was handed out, or why they could not be found.
    Extracted(Result<Vec<InjectedRegion>, ExtractError>),
}

/// An event as plain values.
pub enum EventView {
    Resume,
    Formatted(Result<Seq<u8>, Seq<char>>),
    Extracted(Result<Seq<RegionView>, ExtractError>),
}

impl View for Event {
    type V = EventView;

    open spec fn view(&self) -> EventView {
        match self {
            Event::Resume => EventView::Resume,
            Event::Formatted(Ok(bytes)) => EventView::Formatted(Ok(bytes@)),
            Event::Formatted(Err(message)) => EventView::Formatted(Err(message@)),
            Event::Extracted(Ok(regions)) => EventView::Extracted(Ok(region_views(regions@))),
            Event::Extracted(Err(error)) => EventView::Extracted(Err(*error)),
        }
    }
}

/// What one step makes of a frame.
pub enum Outcome {
    /// The frame goes on.
    Continue(Frame),
    /// The frame waits for the outside to act.
    Run(Frame, Action),
    /// The frame waits for the frame of one of its regions.
    Descend(Frame, Frame),
    /// The frame is through: this is its text.
    Complete(Vec<u8>),
    /// The frame has failed.
    Fail(FormatError),
}

/// An outcome as plain values.
pub enum OutcomeView {
    Continue(FrameView),
    Run(FrameView, ActionView),
    Descend(FrameView, FrameView),
    Complete(Seq<u8>),
    Fail(ErrorView),
}

impl View for Outcome {
    type V = OutcomeView;

    open spec fn view(&self) -> OutcomeView {
        match self {
            Outcome::Continue(frame) => OutcomeView::Continue(frame@),
            Outcome::Run(frame, action) => OutcomeView::Run(frame@, action@),
            Outcome::Descend(frame, child) => OutcomeView::Descend(frame@, child@),
            Outcome::Complete(bytes) => OutcomeView::Complete(bytes@),
            Outcome::Fail(error) => OutcomeView::Fail(error@),
        }
    }
}

/// The place after `next`.
pub open spec fn place_after(next: usize) -> usize {
    if next < usize::MAX {
        (next + 1) as usize
    } else {
        next
    }
}

/// `frame` at another stage.
pub open spec fn at_stage(frame: FrameView, stage: StageView) -> FrameView {
    FrameView {
        buffer: frame.buffer,
        printwidth: frame.printwidth,
        language: frame.language,
        is_root: frame.is_root,
        stage,
    }
}

/// One step of a frame that runs the formatters of its language.
///
/// The document itself is left alone where formatting of the root is switched off.
/// Else the formatters of the language are gone through in their order; the language
/// is looked up, and handed to the formatters, under the name by which it is known,
/// which for an alias is the language that it stands for. One that does
/// not run at this level is passed over. One that the context knows is run; one that
/// only the alternate registry knows is run there; one that neither knows is passed
/// over. After the last, the frame goes on to its grammar.
pub open spec fn formatting_step_of(
    context: FormatContext,
    format_root: bool,
    frame: FrameView,
    next: usize,
) -> OutcomeView {
    if frame.is_root && !format_root {
        OutcomeView::Continue(at_stage(frame, StageView::Resolve))
    } else {
        let known = canonical_name(
            name_views(context.grammars@),
            context.language_aliases@,
            frame.language,
        );
        match position_of(language_names(context.languages@), known) {
            None => OutcomeView::Continue(at_stage(frame, StageView::Resolve)),
            Some(language) => {
                let specs = context.languages@[language].formatters@;
                if next >= specs.len() {
                    OutcomeView::Continue(at_stage(frame, StageView::Resolve))
                } else if !specs[next as int].runs_at(frame.is_root) {
                    OutcomeView::Continue(
                        at_stage(frame, StageView::Formatting { next: place_after(next) }),
                    )
                } else {
                    let name = specs[next as int].formatter_of();
                    match position_of(formatter_names(context.formatters@), name) {
                        Some(formatter) => OutcomeView::Run(
                            at_stage(
                                frame,
                                StageView::AwaitFormatter {
                                    next,
                                    label: context.formatters@[formatter].spec.cmd@,
                                },
                            ),
                            ActionView::Format {
                                formatter: formatter as usize,
                                input: frame.buffer,
                                printwidth: frame.printwidth,
                                language: known,
                            },
                        ),
                        None => match position_of(name_views(context.alternate_formatters@), name) {
                            Some(_) => OutcomeView::Run(
                                at_stage(frame, StageView::AwaitFormatter { next, label: name }),
                                ActionView::FormatAlternate {
                                    name,
                                    input: frame.buffer,
                                    printwidth: frame.printwidth,
                                    language: known,
                                },
                            ),
                            None => OutcomeView::Continue(
                                at_stage(frame, StageView::Formatting { next: place_after(next) }),
                            ),
                        },
                    }
                }
            },
        }
    }
}

/// One step of a frame whose formatter has come back. An empty text is a failure that
/// names the formatter; any other text takes the place of the frame's text, and the
/// next formatter is looked at.
pub open spec fn formatted_step_of(
    frame: FrameView,
    next: usize,
    label: Seq<char>,
    event: EventView,
) -> OutcomeView {
    match event {
        EventView::Formatted(Ok(bytes)) => if bytes.len() == 0 {
            OutcomeView::Fail(ErrorView::EmptyResult(label))
        } else {
            OutcomeView::Continue(
                FrameView {
                    buffer: bytes,
                    printwidth: frame.printwidth,
                    language: frame.language,
                    is_root: frame.is_root,
                    stage: StageView::Formatting { next: place_after(next) },
                },
            )
        },
        EventView::Formatted(Err(message)) => OutcomeView::Fail(ErrorView::Formatter(message)),
        _ => OutcomeView::Fail(ErrorView::Unexpected),
    }
}

/// One step of a frame that looks up its grammar. Without a grammar for its language,
/// by name or by alias, the frame is through with the text it has. Else its regions are
/// asked for.
pub open spec fn resolve_step_of(context: FormatContext, frame: FrameView) -> OutcomeView {
    match resolved_name(name_views(context.grammars@), context.language_aliases@, frame.language) {
        Some(grammar) => OutcomeView::Run(
            at_stage(frame, StageView::AwaitRegions),
            ActionView::Extract { grammar: grammar as usize, source: frame.buffer },
        ),
        None => OutcomeView::Complete(frame.buffer),
    }
}

/// The spans of `regions`.
pub open spec fn view_ranges(regions: Seq<RegionView>) -> Seq<crate::range::Range> {
    Seq::new(regions.len(), |i: int| regions[i].range)
}

/// One step of a frame whose regions have come back. They are sorted for replacement,
/// from the end of the text to its start. Regions that overlap, or do not lie in the
/// text, are a failure.
pub open spec fn extracted_step_of(frame: FrameView, event: EventView) -> OutcomeView {
    match event {
        EventView::Extracted(Ok(regions)) => {
            let sorted = sorted_regions_of(regions);
            if spliceable(view_ranges(sorted), frame.buffer.len() as int) {
                OutcomeView::Continue(
                    at_stage(
                        frame,
                        StageView::Regions { regions: sorted, results: Seq::empty(), job: None },
                    ),
                )
            } else {
                OutcomeView::Fail(ErrorView::Overlap)
            }
        },
        EventView::Extracted(Err(error)) => OutcomeView::Fail(ErrorView::Extract(error)),
        _ => OutcomeView::Fail(ErrorView::Unexpected),
    }
}

/// One step of a frame that goes through its regions. The next region without a result
/// is prepared and sent through a frame of its own, which is no root and starts with
/// the formatters of the region's language. When every region has its result, the
/// results take the place of the regions and the frame is through.
pub open spec fn regions_step_of(
    frame: FrameView,
    regions: Seq<RegionView>,
    results: Seq<Seq<u8>>,
    job: Option<JobView>,
) -> OutcomeView {
    if job is Some {
        OutcomeView::Fail(ErrorView::Unexpected)
    } else if results.len() == regions.len() {
        if spliceable(view_ranges(regions), frame.buffer.len() as int) {
            OutcomeView::Complete(splice_all_of(frame.buffer, view_ranges(regions), results))
        } else {
            OutcomeView::Fail(ErrorView::Overlap)
        }
    } else if results.len() > regions.len() {
        OutcomeView::Fail(ErrorView::Unexpected)
    } else {
        match job_of(frame.buffer, regions[results.len() as int], frame.printwidth) {
            Ok(prepared) => OutcomeView::Descend(
                at_stage(frame, StageView::Regions { regions, results, job: Some(prepared) }),
                FrameView {
                    buffer: prepared.input,
                    printwidth: prepared.printwidth,
                    language: prepared.lang,
                    is_root: false,
                    stage: StageView::Formatting { next: 0 },
                },
            ),
            Err(error) => OutcomeView::Fail(ErrorView::Region(error)),
        }
    }
}

/// Byte accounting for a frame. A frame whose regions have all come back as they stand
/// in its text is through with that text: putting the results in the place of the
/// regions changes nothing.
pub proof fn frame_of_unchanged_regions_is_unchanged(
    frame: FrameView,
    regions: Seq<RegionView>,
    results: Seq<Seq<u8>>,
)
    requires
        spliceable(view_ranges(regions), frame.buffer.len() as int),
        results.len() == regions.len(),
        forall|i: int|
            0 <= i < regions.len() ==> #[trigger] results[i] == frame.buffer.subrange(
                regions[i].range.start_byte as int,
                regions[i].range.end_byte as int,
            ),
    ensures
        regions_step_of(frame, regions, results, None) == OutcomeView::Complete(frame.buffer),
{
    let ranges = view_ranges(regions);
    assert forall|i: int| 0 <= i < ranges.len() implies #[trigger] results[i]
        == frame.buffer.subrange(ranges[i].start_byte as int, ranges[i].end_byte as int) by {
        assert(ranges[i] == regions[i].range);
    }
    crate::splice::splice_of_unchanged_regions(frame.buffer, ranges, results);
}

/// One step of a frame, by the stage at which it stands and what the caller brought.
/// A frame that waits for nothing goes on at `Resume` alone, and a frame that waits
/// takes only what it waits for; anything else is a failure.
pub open spec fn frame_step_of(
    context: FormatContext,
    format_root: bool,
    frame: FrameView,
    event: EventView,
) -> OutcomeView {
    match frame.stage {
        StageView::Formatting { next } => if event is Resume {
            formatting_step_of(context, format_root, frame, next)
        } else {
            OutcomeView::Fail(ErrorView::Unexpected)
        },
        StageView::AwaitFormatter { next, label } => formatted_step_of(frame, next, label, event),
        StageView::Resolve => if event is Resume {
            resolve_step_of(context, frame)
        } else {
            OutcomeView::Fail(ErrorView::Unexpected)
        },
        StageView::AwaitRegions => extracted_step_of(frame, event),
        StageView::Regions { regions, results, job } => if event is Resume {
            regions_step_of(frame, regions, results, job)
        } else {
            OutcomeView::Fail(ErrorView::Unexpected)
        },
    }
}

/// A frame that takes back the text of the region that was on its way: the text is
/// finished for the document and becomes the next result. A frame that has no region on
/// its way cannot take anything back.
pub open spec fn resume_of(frame: FrameView, output: Seq<u8>) -> Result<FrameView, ErrorView> {
    match frame.stage {
        StageView::Regions { regions, results, job: Some(job) } => if crate::escape::none_empty(
            job.escapes,
        ) {
            match finished_of(job, output) {
                Ok(bytes) => Ok(
                    at_stage(
                        frame,
                        StageView::Regions { regions, results: results.push(bytes), job: None },
                    ),
                ),
                Err(error) => Err(ErrorView::Region(error)),
            }
        } else {
            Err(ErrorView::Unexpected)
        },
        _ => Err(ErrorView::Unexpected),
    }
}

/// A copy of `text`.
fn copy_string(text: &String) -> (copy: String)
    ensures
        copy@ == text@,
{
    text.clone()
}

/// The place after `next`.
fn after(next: usize) -> (place: usize)
    ensures
        place == place_after(next),
{
    if next < usize::MAX {
        next + 1
    } else {
        next
    }
}

/// Runs one step of a frame at the stage `Formatting`.
fn formatting_step(
    context: &FormatContext,
    format_root: bool,
    buffer: Vec<u8>,
    printwidth: u32,
    language: String,
    is_root: bool,
    next: usize,
) -> (out: Outcome)
    ensures
        out@ == formatting_step_of(
            *context,
            format_root,
            FrameView {
                buffer: buffer@,
                printwidth,
                language: language@,
                is_root,
                stage: StageView::Formatting { next },
            },
            next,
        ),
{
    if is_root && !format_root {
        return Outcome::Continue(Frame { buffer, printwidth, language, is_root, stage: Stage::Resolve });
    }
    let known = canonical_language(
        context.grammars.as_slice(),
        context.language_aliases.as_slice(),
        language.as_str(),
    );
    let place = match find_language(context.languages.as_slice(), known.as_str()) {
        Some(place) => place,
        None => {
            return Outcome::Continue(
                Frame { buffer, printwidth, language, is_root, stage: Stage::Resolve },
            );
        },
    };
    let specs = &context.languages[place].formatters;
    if next >= specs.len() {
        return Outcome::Continue(Frame { buffer, printwidth, language, is_root, stage: Stage::Resolve });
    }
    let spec = &specs[next];
    if !spec.should_run(is_root) {
        return Outcome::Continue(
            Frame { buffer, printwidth, language, is_root, stage: Stage::Formatting { next: after(next) } },
        );
    }
    let name = spec.formatter();
    match find_formatter(context.formatters.as_slice(), name) {
        Some(formatter) => {
            let input = slice_to_vec(buffer.as_slice());
            let label = copy_string(&context.formatters[formatter].spec.cmd);
            let action = Action::Format {
                formatter,
                input,
                printwidth,
                language: copy_string(&known),
            };
            Outcome::Run(
                Frame {
                    buffer,
                    printwidth,
                    language,
                    is_root,
                    stage: Stage::AwaitFormatter { next, label },
                },
                action,
            )
        },
        None => match find_name(context.alternate_formatters.as_slice(), name) {
            Some(_) => {
                let input = slice_to_vec(buffer.as_slice());
                let action = Action::FormatAlternate {
                    name: name.to_owned(),
                    input,
                    printwidth,
                    language: copy_string(&known),
                };
                Outcome::Run(
                    Frame {
                        buffer,
                        printwidth,
                        language,
                        is_root,
                        stage: Stage::AwaitFormatter { next, label: name.to_owned() },
                    },
                    action,
                )
            },
            None => Outcome::Continue(
                Frame {
                    buffer,
                    printwidth,
                    language,
                    is_root,
                    stage: Stage::Formatting { next: after(next) },
                },
            ),
        },
    }
}

/// Runs one step of a frame at the stage `AwaitRegions`.
fn extracted_step(
    buffer: Vec<u8>,
    printwidth: u32,
    language: String,
    is_root: bool,
    event: Event,
) -> (out: Outcome)
    ensures
        out@ == extracted_step_of(
            FrameView {
                buffer: buffer@,
                printwidth,
                language: language@,
                is_root,
                stage: StageView::AwaitRegions,
            },
            event@,
        ),
{
    match event {
        Event::Extracted(Ok(regions)) => {
            let sorted = sort_regions(regions.as_slice());
            proof {
                assert(view_ranges(region_views(sorted@)) =~= region_ranges(sorted@));
            }
            if regions_spliceable(sorted.as_slice(), buffer.len()) {
                let results: Vec<Vec<u8>> = Vec::new();
                proof {
                    assert(byte_views(results@) =~= Seq::<Seq<u8>>::empty());
                }
                Outcome::Continue(
                    Frame {
                        buffer,
                        printwidth,
                        language,
                        is_root,
                        stage: Stage::Regions { regions: sorted, results, job: None },
                    },
                )
            } else {
                Outcome::Fail(FormatError::Overlap)
            }
        },
        Event::Extracted(Err(error)) => Outcome::Fail(FormatError::Extract(error)),
        _ => Outcome::Fail(FormatError::Unexpected),
    }
}

/// Runs one step of a frame at the stage `Regions`.
fn regions_step(
    buffer: Vec<u8>,
    printwidth: u32,
    language: String,
    is_root: bool,
    regions: Vec<InjectedRegion>,
    results: Vec<Vec<u8>>,
    job: Option<RegionJob>,
) -> (out: Outcome)
    ensures
        out@ == regions_step_of(
            FrameView {
                buffer: buffer@,
                printwidth,
                language: language@,
                is_root,
                stage: StageView::Regions {
                    regions: region_views(regions@),
                    results: byte_views(results@),
                    job: job_view(job),
                },
            },
            region_views(regions@),
            byte_views(results@),
            job_view(job),
        ),
{
    proof {
        assert(view_ranges(region_views(regions@)) =~= region_ranges(regions@));
    }
    if job.is_some() {
        return Outcome::Fail(FormatError::Unexpected);
    }
    if results.len() == regions.len() {
        if regions_spliceable(regions.as_slice(), buffer.len()) {
            let mut buffer = buffer;
            splice_all(&mut buffer, regions.as_slice(), results.as_slice());
            return Outcome::Complete(buffer);
        } else {
            return Outcome::Fail(FormatError::Overlap);
        }
    }
    if results.len() > regions.len() {
        return Outcome::Fail(FormatError::Unexpected);
    }
    proof {
        assert(region_views(regions@)[results.len() as int] == regions@[results.len() as int]@);
    }
    match prepare_region(buffer.as_slice(), &regions[results.len()], printwidth) {
        Ok(prepared) => {
            let child = Frame {
                buffer: slice_to_vec(prepared.input.as_slice()),
                printwidth: prepared.printwidth,
                language: copy_string(&prepared.lang),
                is_root: false,
                stage: Stage::Formatting { next: 0 },
            };
            Outcome::Descend(
                Frame {
                    buffer,
                    printwidth,
                    language,
                    is_root,
                    stage: Stage::Regions { regions, results, job: Some(prepared) },
                },
                child,
            )
        },
        Err(error) => Outcome::Fail(FormatError::Region(error)),
    }
}

/// Runs one step of a frame.
pub fn frame_step(context: &FormatContext, format_root: bool, frame: Frame, event: Event) -> (out:
    Outcome)
    ensures
        out@ == frame_step_of(*context, format_root, frame@, event@),
{
    let Frame { buffer, printwidth, language, is_root, stage } = frame;
    match stage {
        Stage::Formatting { next } => match event {
            Event::Resume => formatting_step(
                context,
                format_root,
                buffer,
                printwidth,
                language,
                is_root,
                next,
            ),
            _ => Outcome::Fail(FormatError::Unexpected),
        },
        Stage::AwaitFormatter { next, label } => match event {
            Event::Formatted(Ok(bytes)) => {
                if bytes.len() == 0 {
                    Outcome::Fail(FormatError::EmptyResult(label))
                } else {
                    Outcome::Continue(
                        Frame {
                            buffer: bytes,
                            printwidth,
                            language,
                            is_root,
                            stage: Stage::Formatting { next: after(next) },
                        },
                    )
                }
            },
            Event::Formatted(Err(message)) => Outcome::Fail(FormatError::Formatter(message)),
            _ => Outcome::Fail(FormatError::Unexpected),
        },
        Stage::Resolve => match event {
            Event::Resume => {
                match resolve_language(
                    context.grammars.as_slice(),
                    context.language_aliases.as_slice(),
                    language.as_str(),
                ) {
                    Some(grammar) => {
                        let source = slice_to_vec(buffer.as_slice());
                        Outcome::Run(
                            Frame {
                                buffer,
                                printwidth,
                                language,
                                is_root,
                                stage: Stage::AwaitRegions,
                            },
                            Action::Extract { grammar, source },
                        )
                    },
                    None => Outcome::Complete(buffer),
                }
            },
            _ => Outcome::Fail(FormatError::Unexpected),
        },
        Stage::AwaitRegions => extracted_step(buffer, printwidth, language, is_root, event),
        Stage::Regions { regions, results, job } => match event {
            Event::Resume => regions_step(
                buffer,
                printwidth,
                language,
                is_root,
                regions,
                results,
                job,
            ),
            _ => Outcome::Fail(FormatError::Unexpected),
        },
    }
}

/// Tells whether no string of `list` is empty.
pub fn all_nonempty(list: &[String]) -> (ok: bool)
    ensures
        ok == crate::escape::none_empty(crate::escape::string_views(list@)),
{
    let ghost views = crate::escape::string_views(list@);
    let mut i: usize = 0;
    while i < list.len()
        invariant
            i <= list.len(),
            views == crate::escape::string_views(list@),
            forall|k: int| 0 <= k < i ==> (#[trigger] views[k]).len() > 0,
        decreases list.len() - i,
    {
        if crate::strings::to_chars(list[i].as_str()).len() == 0 {
            proof {
                assert(views[i as int].len() == 0);
            }
            return false;
        }
        i += 1;
    }
    true
}

/// Hands a frame the text of the region that was on its way.
pub fn resume_frame(frame: Frame, output: Vec<u8>) -> (resumed: Result<Frame, FormatError>)
    ensures
        match resumed {
            Ok(f) => resume_of(frame@, output@) == Ok::<FrameView, ErrorView>(f@),
            Err(e) => resume_of(frame@, output@) == Err::<FrameView, ErrorView>(e@),
        },
{
    let Frame { buffer, printwidth, language, is_root, stage } = frame;
    match stage {
        Stage::Regions { regions, results, job: Some(job) } => {
            if !all_nonempty(job.escapes.as_slice()) {
                return Err(FormatError::Unexpected);
            }
            match finish_region(&job, output) {
                Ok(bytes) => {
                    let mut results = results;
                    let ghost before = byte_views(results@);
                    results.push(bytes);
                    proof {
                        assert(byte_views(results@) =~= before.push(bytes@));
                    }
                    Ok(
                        Frame {
                            buffer,
                            printwidth,
                            language,
                            is_root,
                            stage: Stage::Regions { regions, results, job: None },
                        },
                    )
                },
                Err(error) => Err(FormatError::Region(error)),
            }
        },
        _ => Err(FormatError::Unexpected),
    }
}

/// The frames of `frames`, each as plain values.
pub open spec fn frame_views(frames: Seq<Frame>) -> Seq<FrameView> {
    Seq::new(frames.len(), |i: int| frames[i]@)
}

/// The machine that formats one document: what it knows of its surroundings, whether the
/// document itself is formatted or only its regions, and the stack of frames, the
/// frame of the document first.
pub struct Formatter {
    pub context: FormatContext,
    pub format_root: bool,
    pub frames: Vec<Frame>,
}

/// One step of the machine: the frames after it, and what the caller shall do.
///
/// The step is that of the frame on top of the stack. A frame that goes on or waits
/// stays on top; a frame that sends a region on its way gets the frame of the region
/// above it. A frame that is through leaves the stack and hands its text to the frame
/// below, which takes it as the result of its region; the text of the last frame is
/// the formatted document. A failure empties the stack, and a machine without frames
/// only fails.
pub open spec fn machine_step_of(
    context: FormatContext,
    format_root: bool,
    frames: Seq<FrameView>,
    event: EventView,
) -> (Seq<FrameView>, ActionView) {
    if frames.len() == 0 {
        (frames, ActionView::Failed(ErrorView::Unexpected))
    } else {
        let below = frames.drop_last();
        match frame_step_of(context, format_root, frames.last(), event) {
            OutcomeView::Continue(frame) => (below.push(frame), ActionView::Continue),
            OutcomeView::Run(frame, action) => (below.push(frame), action),
            OutcomeView::Descend(frame, child) => (
                below.push(frame).push(child),
                ActionView::Continue,
            ),
            OutcomeView::Fail(error) => (Seq::empty(), ActionView::Failed(error)),
            OutcomeView::Complete(text) => if below.len() == 0 {
                (Seq::empty(), ActionView::Done(text))
            } else {
                match resume_of(below.last(), text) {
                    Ok(parent) => (below.drop_last().push(parent), ActionView::Continue),
                    Err(error) => (Seq::empty(), ActionView::Failed(error)),
                }
            },
        }
    }
}

impl Formatter {
    /// A machine that is about to format `source`: one frame, that of the document, at
    /// the first formatter of its language.
    pub fn new(context: FormatContext, source: &[u8], opts: &FormatOpts, format_root: bool) -> (machine:
        Formatter)
        ensures
            machine.context == context,
            machine.format_root == format_root,
            frame_views(machine.frames@) == seq![
                FrameView {
                    buffer: source@,
                    printwidth: opts.printwidth,
                    language: opts.language@,
                    is_root: true,
                    stage: StageView::Formatting { next: 0 },
                },
            ],
            crate::protocol::in_order(frame_views(machine.frames@)),
    {
        let mut frames: Vec<Frame> = Vec::new();
        frames.push(
            Frame {
                buffer: slice_to_vec(source),
                printwidth: opts.printwidth,
                language: opts.language.to_owned(),
                is_root: true,
                stage: Stage::Formatting { next: 0 },
            },
        );
        proof {
            assert(frame_views(frames@) =~= seq![frames@[0]@]);
            crate::protocol::new_machine_is_in_order(frames@[0]@);
        }
        Formatter { context, format_root, frames }
    }

    /// Moves the machine one step on with what the caller brings, and says what the
    /// caller shall do next. A caller that brings what the step before asked for is never
    /// refused: the stack stays in order, and the action asks for what the machine then
    /// waits for.
    pub fn step(&mut self, event: Event) -> (action: Action)
        ensures
            final(self).context == old(self).context,
            final(self).format_root == old(self).format_root,
            (frame_views(final(self).frames@), action@) == machine_step_of(
                old(self).context,
                old(self).format_root,
                frame_views(old(self).frames@),
                event@,
            ),
            crate::protocol::in_order(frame_views(old(self).frames@)) && old(self).frames.len() > 0
                && crate::protocol::answers(event@, frame_views(old(self).frames@).last().stage)
                ==> crate::protocol::in_order(frame_views(final(self).frames@))
                && crate::protocol::asks_for(action@, frame_views(final(self).frames@)) && action@
                != ActionView::Failed(ErrorView::Unexpected),
    {
        let ghost before = frame_views(self.frames@);
        proof {
            if crate::protocol::in_order(before) && before.len() > 0 && crate::protocol::answers(
                event@,
                before.last().stage,
            ) {
                crate::protocol::machine_keeps_its_protocol(
                    self.context,
                    self.format_root,
                    before,
                    event@,
                );
            }
        }
        let top = match self.frames.pop() {
            Some(top) => top,
            None => {
                return Action::Failed(FormatError::Unexpected);
            },
        };
        let ghost below = frame_views(self.frames@);
        proof {
            assert(below =~= before.drop_last());
            assert(before.last() == top@);
        }
        match frame_step(&self.context, self.format_root, top, event) {
            Outcome::Continue(frame) => {
                self.frames.push(frame);
                proof {
                    assert(frame_views(self.frames@) =~= below.push(frame@));
                }
                Action::Continue
            },
            Outcome::Run(frame, action) => {
                self.frames.push(frame);
                proof {
                    assert(frame_views(self.frames@) =~= below.push(frame@));
                }
                action
            },
            Outcome::Descend(frame, child) => {
                self.frames.push(frame);
                self.frames.push(child);
                proof {
                    assert(frame_views(self.frames@) =~= below.push(frame@).push(child@));
                }
                Action::Continue
            },
            Outcome::Fail(error) => {
                self.frames.clear();
                proof {
                    assert(frame_views(self.frames@) =~= Seq::<FrameView>::empty());
                }
                Action::Failed(error)
            },
            Outcome::Complete(text) => {
                match self.frames.pop() {
                    None => {
                        proof {
                            assert(frame_views(self.frames@) =~= Seq::<FrameView>::empty());
                        }
                        Action::Done(text)
                    },
                    Some(parent) => {
                        let ghost rest = frame_views(self.frames@);
                        proof {
                            assert(rest =~= below.drop_last());
                            assert(below.last() == parent@);
                        }
                        match resume_frame(parent, text) {
                            Ok(resumed) => {
                                self.frames.push(resumed);
                                proof {
                                    assert(frame_views(self.frames@) =~= rest.push(resumed@));
                                }
                                Action::Continue
                            },
                            Err(error) => {
                                self.frames.clear();
                                proof {
                                    assert(frame_views(self.frames@) =~= Seq::<FrameView>::empty());
                                }
                                Action::Failed(error)
                            },
                        }
                    },
                }
            },
        }
    }
}

} // verus!

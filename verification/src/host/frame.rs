//! Encoding and submitting frames: the host side of the frame contract.
//!
//! A host does the same things every frame - begin, reset the command list, open
//! a pass, push the transforms, draw, end the pass, submit, present - and the
//! order is not free. This module is that order in one place.
use crate::host::abi;
use crate::text;
use vstd::prelude::*;
use vstd::string::StringExecFns;

verus! {

/// Host-side wall time at the three boundaries of a frame.
#[derive(Clone, Copy, Debug, PartialEq, Eq, Structural)]
pub struct FrameCost {
    pub begin_ns: u64,
    pub submit_ns: u64,
    pub present_ns: u64,
}

impl Default for FrameCost {
    fn default() -> (r: Self)
        ensures
            r == (FrameCost { begin_ns: 0, submit_ns: 0, present_ns: 0 }),
    {
        FrameCost { begin_ns: 0, submit_ns: 0, present_ns: 0 }
    }
}

impl FrameCost {
    pub open spec fn total(self) -> int {
        self.begin_ns + self.submit_ns + self.present_ns
    }

    pub fn total_ns(&self) -> (r: u64)
        requires
            self.total() <= u64::MAX,
        ensures
            r == self.total(),
    {
        self.begin_ns + self.submit_ns + self.present_ns
    }
}

/// What a renderer is built for: the frame size, where it presents, and how many
/// times it re-issues the scene's draws per frame.
///
/// `repeat` is here rather than passed per call because it is what the command
/// list is sized for, and a command list never grows inside a frame - recording
/// past its capacity is refused, not reallocated. `max_draws` sizes it for a
/// dynamic scene instead: a host that draws one instance per game object records
/// more draws than the scene has chunks, and says so up front.
#[derive(Clone, Copy, Debug, PartialEq, Eq, Structural)]
pub struct Options {
    pub width: u32,
    pub height: u32,
    /// Selects the offscreen path a headless tool uses; a host with a real
    /// swapchain sets it to false.
    pub present_to_memory: bool,
    /// Draw the scene this many times per frame. Multiplies draw calls and shaded
    /// fragments without changing what the scene is.
    pub repeat: u32,
    /// The most draws one frame will record; 0 sizes for `repeat` whole scenes.
    pub max_draws: u32,
    /// Ask the device to keep each frame so a later image can be warped from it.
    pub framegen: bool,
}

impl Default for Options {
    fn default() -> (r: Self)
        ensures
            r == (Options {
                width: 64,
                height: 64,
                present_to_memory: true,
                repeat: 1,
                max_draws: 0,
                framegen: false,
            }),
    {
        Options {
            width: 64,
            height: 64,
            present_to_memory: true,
            repeat: 1,
            max_draws: 0,
            framegen: false,
        }
    }
}

impl Options {
    /// The size of the frames: a frame without pixels is drawn as one of a single
    /// row or column.
    pub fn extent(&self) -> (r: (u32, u32))
        ensures
            r.0 == at_least_one(self.width),
            r.1 == at_least_one(self.height),
    {
        (
            if self.width == 0 {
                1
            } else {
                self.width
            },
            if self.height == 0 {
                1
            } else {
                self.height
            },
        )
    }
}

pub open spec fn at_least_one(n: u32) -> u32 {
    if n == 0 {
        1
    } else {
        n
    }
}

/// The draws a command list is sized for.
pub open spec fn draws_for(chunks: int, options: Options) -> int {
    if options.max_draws > 0 {
        options.max_draws as int
    } else {
        at_least_one(options.repeat) * chunks
    }
}

/// Commands one frame records: the pass's begin and end, the view transform, and
/// per draw the pipeline, vertex buffer, index buffer, model and draw.
pub open spec fn commands_for(chunks: int, options: Options) -> int {
    draws_for(chunks, options) * 5 + 3
}

pub fn commands_per_frame(chunks: u32, options: &Options) -> (r: u32)
    requires
        commands_for(chunks as int, *options) <= u32::MAX,
    ensures
        r == commands_for(chunks as int, *options),
{
    let draws: u32 = if options.max_draws > 0 {
        options.max_draws
    } else if options.repeat == 0 {
        chunks
    } else {
        proof {
            assert(options.repeat * chunks <= u32::MAX);
        }
        options.repeat * chunks
    };
    draws * 5 + 3
}

/// The bytes of the command list of a scene of `chunks` chunks, or `None` where no
/// list can be that long.
pub fn command_list_bytes(chunks: usize, options: &Options) -> (r: Option<u32>)
    ensures
        match r {
            Some(n) => n == commands_for(chunks as int, *options) * abi::COMMAND_BYTES,
            None => commands_for(chunks as int, *options) * abi::COMMAND_BYTES > u32::MAX,
        },
{
    let repeat: u32 = if options.repeat == 0 { 1 } else { options.repeat };
    proof {
        assert(repeat * chunks <= u32::MAX * u64::MAX) by (nonlinear_arith)
            requires
                0 <= repeat <= u32::MAX,
                0 <= chunks <= u64::MAX;
    }
    let draws: u128 = if options.max_draws > 0 {
        options.max_draws as u128
    } else {
        repeat as u128 * chunks as u128
    };
    assert(draws <= u32::MAX * u64::MAX);
    let commands: u128 = draws * 5 + 3;
    if commands > u32::MAX as u128 / abi::COMMAND_BYTES as u128 {
        None
    } else {
        Some(commands as u32 * abi::COMMAND_BYTES)
    }
}

/// Whether a list of `capacity` bytes holds that many commands: what does not fit is
/// refused, and never grows the list.
pub fn fits_list(commands: usize, capacity: u32) -> (r: bool)
    ensures
        r == (commands * abi::COMMAND_BYTES <= capacity),
{
    commands as u128 * abi::COMMAND_BYTES as u128 <= capacity as u128
}

/// The bytes of a frame's pixels.
pub open spec fn frame_size(width: u32, height: u32) -> int {
    width * height * 4
}

/// Bytes a present buffer must hold.
pub fn frame_bytes(width: u32, height: u32) -> (r: usize)
    requires
        frame_size(width, height) <= usize::MAX,
    ensures
        r == frame_size(width, height),
{
    assert(width * height <= width * height * 4) by (nonlinear_arith)
        requires
            0 <= width,
            0 <= height;
    (width as usize) * (height as usize) * 4
}

pub open spec fn short_buffer_text(len: nat, width: u32, height: u32) -> Seq<char> {
    "present buffer is "@ + text::dec(len) + " bytes, a "@ + text::dec(width as nat) + "x"@
        + text::dec(height as nat) + " frame needs "@ + text::dec(
        frame_size(width, height) as nat,
    )
}

/// A short present buffer is refused before the device is asked for anything.
pub fn check_present(len: usize, width: u32, height: u32) -> (r: Result<(), String>)
    requires
        frame_size(width, height) <= usize::MAX,
    ensures
        match r {
            Ok(_) => len >= frame_size(width, height),
            Err(e) => len < frame_size(width, height) && e@ == short_buffer_text(
                len as nat,
                width,
                height,
            ),
        },
{
    let need = frame_bytes(width, height);
    if len >= need {
        return Ok(());
    }
    let mut e = String::from_str("present buffer is ");
    text::push_dec(&mut e, len as u128);
    e.append(" bytes, a ");
    text::push_dec(&mut e, width as u128);
    e.append("x");
    text::push_dec(&mut e, height as u128);
    e.append(" frame needs ");
    text::push_dec(&mut e, need as u128);
    assert(e@ =~= short_buffer_text(len as nat, width, height));
    Err(e)
}

/// One step of recording a frame.
#[derive(Clone, Copy, Debug, PartialEq, Eq, Structural)]
pub enum Command {
    BeginPass,
    PushViewProj,
    SetPipeline,
    /// Binds the vertices of a chunk.
    SetVertexBuffer(usize),
    /// Binds the indices of a chunk.
    SetIndexBuffer(usize),
    /// Pushes the model matrix of an instance of the plan.
    PushModel(usize),
    /// Draws this many indices.
    DrawIndexed(u32),
    EndPass,
}

/// The draws of one whole scene after another: every chunk, `repeat` times.
pub open spec fn is_scene_plan(plan: Seq<usize>, chunks: int, repeat: int) -> bool {
    &&& plan.len() == repeat * chunks
    &&& forall|i: int| 0 <= i < plan.len() ==> #[trigger] plan[i] == i % chunks
}

/// The instances of a frame that re-issues the scene's draws `repeat` times.
pub fn scene_plan(chunks: usize, repeat: u32) -> (r: Vec<usize>)
    requires
        at_least_one(repeat) * chunks <= usize::MAX,
    ensures
        is_scene_plan(r@, chunks as int, at_least_one(repeat) as int),
{
    let times: u32 = if repeat == 0 {
        1
    } else {
        repeat
    };
    let mut r: Vec<usize> = Vec::new();
    let mut k: u32 = 0;
    while k < times
        invariant
            k <= times,
            is_scene_plan(r@, chunks as int, k as int),
        decreases times - k,
    {
        let mut i: usize = 0;
        assert(k * chunks + 0 == k * chunks);
        while i < chunks
            invariant
                i <= chunks,
                r@.len() == k * chunks + i,
                forall|j: int| 0 <= j < r@.len() ==> #[trigger] r@[j] == j % (chunks as int),
            decreases chunks - i,
        {
            proof {
                vstd::arithmetic::div_mod::lemma_fundamental_div_mod_converse(
                    r@.len() as int,
                    chunks as int,
                    k as int,
                    i as int,
                );
            }
            r.push(i);
            i += 1;
        }
        assert(k * chunks + chunks == (k + 1) * chunks) by (nonlinear_arith);
        k += 1;
    }
    r
}

/// The commands that draw one instance.
pub open spec fn draw_commands(indices: Seq<usize>, plan: Seq<usize>, i: int) -> Seq<Command> {
    let chunk = plan[i];
    seq![
        Command::SetPipeline,
        Command::SetVertexBuffer(chunk),
        Command::SetIndexBuffer(chunk),
        Command::PushModel(i as usize),
        Command::DrawIndexed((indices[chunk as int] as int % 0x1_0000_0000) as u32),
    ]
}

/// The commands that draw the first `n` instances.
pub open spec fn draws_of(indices: Seq<usize>, plan: Seq<usize>, n: int) -> Seq<Command>
    decreases n,
{
    if n <= 0 {
        seq![]
    } else {
        draws_of(indices, plan, n - 1) + draw_commands(indices, plan, n - 1)
    }
}

/// How many instances come before the first that names no chunk of the scene.
pub open spec fn good_prefix(indices: Seq<usize>, plan: Seq<usize>) -> nat
    decreases plan.len(),
{
    if plan.len() > 0 && plan[0] < indices.len() {
        1 + good_prefix(indices, plan.skip(1))
    } else {
        0
    }
}

pub open spec fn recorded(indices: Seq<usize>, plan: Seq<usize>, n: int) -> Seq<Command> {
    seq![Command::BeginPass, Command::PushViewProj] + draws_of(indices, plan, n) + seq![
        Command::EndPass,
    ]
}

pub open spec fn missing_chunk_text(chunk: nat, chunks: nat) -> Seq<char> {
    "an instance names chunk "@ + text::dec(chunk) + " but the scene has "@ + text::dec(chunks)
        + " chunks"@
}

/// What a frame records, and why it stops short, where it does.
pub struct FramePlan {
    pub commands: Vec<Command>,
    pub refused: Option<String>,
}

/// The commands of a frame of explicitly listed instances.
///
/// `indices` holds the number of indices of each chunk of the scene, and `plan` a
/// chunk per draw, in order. A plan that names a chunk the scene does not have
/// ends the pass at that point and is refused before the frame is submitted.
pub fn plan_frame(indices: &[usize], plan: &[usize]) -> (r: FramePlan)
    ensures
        ({
            let n = good_prefix(indices@, plan@);
            &&& n <= plan@.len()
            &&& r.commands@ == recorded(indices@, plan@, n as int)
            &&& match r.refused {
                None => n == plan@.len(),
                Some(e) => n < plan@.len() && e@ == missing_chunk_text(
                    plan@[n as int] as nat,
                    indices@.len(),
                ),
            }
        }),
{
    let mut commands: Vec<Command> = Vec::new();
    commands.push(Command::BeginPass);
    commands.push(Command::PushViewProj);
    let mut i: usize = 0;
    let ghost head = seq![Command::BeginPass, Command::PushViewProj];
    assert(plan@.skip(0) =~= plan@);
    assert(commands@ =~= head + draws_of(indices@, plan@, 0));
    while i < plan.len()
        invariant
            i <= plan@.len(),
            head == seq![Command::BeginPass, Command::PushViewProj],
            commands@ == head + draws_of(indices@, plan@, i as int),
            good_prefix(indices@, plan@) == i + good_prefix(indices@, plan@.skip(i as int)),
        decreases plan@.len() - i,
    {
        let chunk = plan[i];
        if chunk >= indices.len() {
            assert(indices.len() == indices@.len());
            commands.push(Command::EndPass);
            let mut e = String::from_str("an instance names chunk ");
            text::push_dec(&mut e, chunk as u128);
            e.append(" but the scene has ");
            text::push_dec(&mut e, indices.len() as u128);
            e.append(" chunks");
            assert(e@ =~= missing_chunk_text(chunk as nat, indices@.len()));
            assert(commands@ =~= recorded(indices@, plan@, i as int));
            return FramePlan { commands, refused: Some(e) };
        }
        commands.push(Command::SetPipeline);
        commands.push(Command::SetVertexBuffer(chunk));
        commands.push(Command::SetIndexBuffer(chunk));
        commands.push(Command::PushModel(i));
        commands.push(Command::DrawIndexed((indices[chunk] as u64 % 0x1_0000_0000) as u32));
        proof {
            assert(commands@ =~= head + draws_of(indices@, plan@, i + 1));
            assert(plan@.skip(i as int).skip(1) =~= plan@.skip(i + 1));
        }
        i += 1;
    }
    commands.push(Command::EndPass);
    assert(commands@ =~= recorded(indices@, plan@, i as int));
    FramePlan { commands, refused: None }
}

proof fn lemma_draws_len(indices: Seq<usize>, plan: Seq<usize>, n: int)
    requires
        0 <= n,
    ensures
        draws_of(indices, plan, n).len() == 5 * n,
    decreases n,
{
    if n > 0 {
        lemma_draws_len(indices, plan, n - 1);
    }
}

/// A command list that is sized for its repeat count holds the frame it was sized
/// for, to the last command.
pub proof fn law_a_sized_list_holds_its_frame(
    indices: Seq<usize>,
    plan: Seq<usize>,
    options: Options,
)
    requires
        options.max_draws == 0,
        is_scene_plan(plan, indices.len() as int, at_least_one(options.repeat) as int),
    ensures
        good_prefix(indices, plan) == plan.len(),
        recorded(indices, plan, plan.len() as int).len() == commands_for(
            indices.len() as int,
            options,
        ),
{
    assert forall|i: int| 0 <= i < plan.len() implies #[trigger] plan[i] < indices.len() by {
        assert(indices.len() > 0) by (nonlinear_arith)
            requires
                plan.len() == at_least_one(options.repeat) * indices.len(),
                plan.len() > 0;
        vstd::arithmetic::div_mod::lemma_mod_bound(i, indices.len() as int);
    }
    lemma_all_good(indices, plan);
    lemma_draws_len(indices, plan, plan.len() as int);
}

/// A plan of no more draws than a list was sized for fits it, whatever it names.
pub proof fn law_a_plan_within_its_draws_fits(
    indices: Seq<usize>,
    plan: Seq<usize>,
    options: Options,
)
    requires
        0 < options.max_draws,
        plan.len() <= options.max_draws,
    ensures
        recorded(indices, plan, good_prefix(indices, plan) as int).len() <= commands_for(
            indices.len() as int,
            options,
        ),
{
    lemma_good_prefix(indices, plan);
    lemma_draws_len(indices, plan, good_prefix(indices, plan) as int);
}

proof fn lemma_good_prefix(indices: Seq<usize>, plan: Seq<usize>)
    ensures
        good_prefix(indices, plan) <= plan.len(),
    decreases plan.len(),
{
    if plan.len() > 0 && plan[0] < indices.len() {
        lemma_good_prefix(indices, plan.skip(1));
    }
}

proof fn lemma_all_good(indices: Seq<usize>, plan: Seq<usize>)
    requires
        forall|i: int| 0 <= i < plan.len() ==> #[trigger] plan[i] < indices.len(),
    ensures
        good_prefix(indices, plan) == plan.len(),
    decreases plan.len(),
{
    if plan.len() > 0 {
        assert forall|i: int| 0 <= i < plan.skip(1).len() implies #[trigger] plan.skip(1)[i]
            < indices.len() by {
            assert(plan.skip(1)[i] == plan[i + 1]);
        }
        lemma_all_good(indices, plan.skip(1));
    }
}

/// What a renderer owns, each to be created and released once.
#[derive(Clone, Copy, Debug, PartialEq, Eq, Structural)]
pub enum Handle {
    Swapchain,
    Pipeline,
    Commands,
    /// The vertex buffer of a chunk.
    Vertices(usize),
    /// The index buffer of a chunk.
    Indices(usize),
}

/// How many handles a renderer of so many chunks has.
pub open spec fn handle_count(chunks: int) -> int {
    3 + 2 * chunks
}

/// The handle that is created as number `i`.
pub open spec fn handle_at(i: int) -> Handle {
    if i == 0 {
        Handle::Swapchain
    } else if i == 1 {
        Handle::Pipeline
    } else if i == 2 {
        Handle::Commands
    } else if i % 2 == 1 {
        Handle::Vertices(((i - 3) / 2) as usize)
    } else {
        Handle::Indices(((i - 3) / 2) as usize)
    }
}

/// What to create next for a renderer that has `created` handles, or `None` where
/// it has them all.
pub fn next_handle(chunks: usize, created: usize) -> (r: Option<Handle>)
    ensures
        r == if created < handle_count(chunks as int) {
            Some(handle_at(created as int))
        } else {
            None
        },
{
    if created < 3 {
        return Some(
            match created {
                0 => Handle::Swapchain,
                1 => Handle::Pipeline,
                _ => Handle::Commands,
            },
        );
    }
    let chunk: usize = (created - 3) / 2;
    if chunk >= chunks {
        None
    } else if created % 2 == 1 {
        Some(Handle::Vertices(chunk))
    } else {
        Some(Handle::Indices(chunk))
    }
}

/// The call that creates a handle, as an error names it.
pub open spec fn creation_name(h: Handle) -> Seq<char> {
    match h {
        Handle::Swapchain => "reconlCreateSwapchain"@,
        Handle::Pipeline => "reconlCreatePipeline"@,
        Handle::Commands => "reconlCreateCommandList"@,
        Handle::Vertices(_) => "reconlCreateBuffer (vertices)"@,
        Handle::Indices(_) => "reconlCreateBuffer (indices)"@,
    }
}

pub fn creation_call(h: Handle) -> (r: &'static str)
    ensures
        r@ == creation_name(h),
{
    match h {
        Handle::Swapchain => "reconlCreateSwapchain",
        Handle::Pipeline => "reconlCreatePipeline",
        Handle::Commands => "reconlCreateCommandList",
        Handle::Vertices(_) => "reconlCreateBuffer (vertices)",
        Handle::Indices(_) => "reconlCreateBuffer (indices)",
    }
}

/// What a renderer with `created` handles releases, whole or partial: each of
/// them once, in the order they were acquired.
pub fn release_order(created: usize) -> (r: Vec<Handle>)
    ensures
        r@ == Seq::new(created as nat, |i: int| handle_at(i)),
{
    let mut r: Vec<Handle> = Vec::new();
    let mut i: usize = 0;
    while i < created
        invariant
            i <= created,
            r@ == Seq::new(i as nat, |k: int| handle_at(k)),
        decreases created - i,
    {
        let h = if i == 0 {
            Handle::Swapchain
        } else if i == 1 {
            Handle::Pipeline
        } else if i == 2 {
            Handle::Commands
        } else if i % 2 == 1 {
            Handle::Vertices((i - 3) / 2)
        } else {
            Handle::Indices((i - 3) / 2)
        };
        r.push(h);
        i += 1;
        assert(r@ =~= Seq::new(i as nat, |k: int| handle_at(k)));
    }
    r
}

/// No handle is released twice.
pub proof fn law_a_handle_is_released_once(created: usize, i: int, j: int)
    requires
        0 <= i < j < created,
    ensures
        handle_at(i) != handle_at(j),
{
}

/// A frame draws every instance once, in order: behind the pass's begin and the view,
/// instance `i` binds the buffers of its own chunk, pushes its own model and draws as
/// many indices as its chunk has; and the pass ends behind the last.
pub proof fn law_each_instance_is_drawn_once_in_its_place(
    indices: Seq<usize>,
    plan: Seq<usize>,
    n: int,
    i: int,
)
    requires
        0 <= i < n <= plan.len() <= usize::MAX,
        forall|k: int| 0 <= k < n ==> #[trigger] plan[k] < indices.len(),
        forall|k: int| 0 <= k < indices.len() ==> #[trigger] indices[k] <= u32::MAX,
    ensures
        ({
            let commands = recorded(indices, plan, n);
            let at = 2 + 5 * i;
            &&& commands.len() == 3 + 5 * n
            &&& commands[0] == Command::BeginPass
            &&& commands[1] == Command::PushViewProj
            &&& commands[commands.len() - 1] == Command::EndPass
            &&& commands[at] == Command::SetPipeline
            &&& commands[at + 1] == Command::SetVertexBuffer(plan[i])
            &&& commands[at + 2] == Command::SetIndexBuffer(plan[i])
            &&& commands[at + 3] == Command::PushModel(i as usize)
            &&& commands[at + 4] == Command::DrawIndexed(indices[plan[i] as int] as u32)
        }),
{
    lemma_draws_len(indices, plan, n);
    lemma_draw_place(indices, plan, n, i);
    let draws = draws_of(indices, plan, n);
    let commands = recorded(indices, plan, n);
    assert forall|k: int| 0 <= k < 5 implies #[trigger] commands[2 + 5 * i + k] == draw_commands(
        indices,
        plan,
        i,
    )[k] by {
        assert(commands[2 + (5 * i + k)] == draws[5 * i + k]);
    }
    assert(commands[2 + 5 * i + 0] == draw_commands(indices, plan, i)[0]);
    assert(indices[plan[i] as int] <= u32::MAX);
}

proof fn lemma_draw_place(indices: Seq<usize>, plan: Seq<usize>, n: int, i: int)
    requires
        0 <= i < n,
    ensures
        forall|k: int|
            0 <= k < 5 ==> draws_of(indices, plan, n)[5 * i + k] == #[trigger] draw_commands(
                indices,
                plan,
                i,
            )[k],
    decreases n,
{
    lemma_draws_len(indices, plan, n - 1);
    if i < n - 1 {
        lemma_draw_place(indices, plan, n - 1, i);
    }
}

/// A plan is drawn up to the first instance that names a chunk the scene does not have.
pub proof fn law_a_plan_is_good_up_to_the_first_missing_chunk(
    indices: Seq<usize>,
    plan: Seq<usize>,
)
    ensures
        good_prefix(indices, plan) <= plan.len(),
        forall|i: int| 0 <= i < good_prefix(indices, plan) ==> #[trigger] plan[i] < indices.len(),
        good_prefix(indices, plan) < plan.len() ==> plan[good_prefix(indices, plan) as int]
            >= indices.len(),
    decreases plan.len(),
{
    if plan.len() > 0 && plan[0] < indices.len() {
        let rest = plan.skip(1);
        law_a_plan_is_good_up_to_the_first_missing_chunk(indices, rest);
        assert forall|i: int| 0 <= i < good_prefix(indices, plan) implies #[trigger] plan[i]
            < indices.len() by {
            if i > 0 {
                assert(plan[i] == rest[i - 1]);
            }
        }
        if good_prefix(indices, plan) < plan.len() {
            assert(plan[good_prefix(indices, plan) as int] == rest[good_prefix(indices, rest) as int]);
        }
    }
}

/// A scene is drawn whole, as often as it is repeated: every chunk once per repeat, in
/// order.
pub proof fn law_a_scene_plan_repeats_the_scene(
    plan: Seq<usize>,
    chunks: int,
    repeat: int,
    r: int,
    c: int,
)
    requires
        is_scene_plan(plan, chunks, repeat),
        0 <= r < repeat,
        0 <= c < chunks,
    ensures
        plan.len() == chunks * repeat,
        0 <= r * chunks + c < plan.len(),
        plan[r * chunks + c] == c,
{
    assert(0 <= r * chunks && r * chunks + chunks <= repeat * chunks) by (nonlinear_arith)
        requires
            0 <= r < repeat,
            0 <= chunks;
    assert(repeat * chunks == chunks * repeat) by (nonlinear_arith);
    vstd::arithmetic::div_mod::lemma_fundamental_div_mod_converse(r * chunks + c, chunks, r, c);
}

/// A command list is sized for five commands a draw and three a frame: as many draws as
/// the scene makes when it is repeated, or as many as the host names.
pub proof fn law_a_list_is_sized_by_its_draws(chunks: int, options: Options)
    requires
        0 <= chunks,
    ensures
        options.max_draws > 0 ==> commands_for(chunks, options) == 5 * options.max_draws + 3,
        options.max_draws == 0 && options.repeat > 0 ==> commands_for(chunks, options) == 5 * (
        chunks * options.repeat) + 3,
        options.max_draws == 0 && options.repeat == 0 ==> commands_for(chunks, options) == 5
            * chunks + 3,
{
    let r = options.repeat as int;
    assert(r * chunks == chunks * r) by (nonlinear_arith);
    assert(1 * chunks == chunks);
}

/// A renderer makes its swapchain, its pipeline and its command list first, and then for
/// every chunk its vertices and its indices: all of them and nothing else.
pub proof fn law_a_renderer_makes_two_buffers_for_each_chunk(chunks: int, c: int)
    requires
        0 <= c < chunks <= usize::MAX,
    ensures
        handle_count(chunks) == 2 * chunks + 3,
        handle_at(0) == Handle::Swapchain,
        handle_at(1) == Handle::Pipeline,
        handle_at(2) == Handle::Commands,
        handle_at(2 * c + 3) == Handle::Vertices(c as usize),
        handle_at(2 * c + 4) == Handle::Indices(c as usize),
{
}

} // verus!

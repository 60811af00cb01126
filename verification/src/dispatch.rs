//! Splitting the flat space of work-items into launches that fit a device.
//!
//! A device accepts a bounded number of work-items in one launch. The
//! dispatcher therefore covers the work-items `0..total` with launches of
//! `chunk = min(capacity, total)` work-items each, the last one shorter
//! where `chunk` does not divide `total`, and issues them in the order of
//! their offsets. Before each launch the device binds the launch's part of
//! the output. Where it refuses, that launch and all later ones are given
//! up, and the output keeps its zeros from there on.
//!
//! The decisions are a state machine, [`Dispatcher::step`], which whoever
//! drives a device calls after each attempt to bind. [`simulate`] drives a
//! device that exists only as two numbers.

use vstd::prelude::*;
use vstd::arithmetic::div_mod::{lemma_fundamental_div_mod, lemma_fundamental_div_mod_converse};
use crate::grid::{col_of, row_of};
use crate::kernel::{mandelbrot, pixel};
use crate::raster::raster;

verus! {

/// The least whole number of `b`s that reach `a`.
pub open spec fn ceil_div(a: int, b: int) -> int {
    (a + b - 1) / b
}

/// The work-items of one launch: those with the flat indices from `offset`
/// up to, not including, `end`.
#[derive(Clone, Copy, Debug, PartialEq, Eq, Structural)]
pub struct Launch {
    pub offset: usize,
    pub end: usize,
}

/// Where a run of the dispatcher stands.
#[derive(Clone, Copy, Debug, PartialEq, Eq, Structural)]
pub enum DispatchState {
    /// The launch at `offset` is the next to be issued.
    Dispatching { offset: usize },
    /// Every launch has been issued.
    Completed,
    /// The device refused to bind the launch at `offset`: neither it nor any
    /// later launch was issued.
    AbandonedShort { offset: usize },
}

/// What became of the attempt to bind a launch's part of the output.
#[derive(Clone, Copy, Debug, PartialEq, Eq, Structural)]
pub enum BindOutcome {
    Bound,
    Refused,
}

impl Launch {
    /// Whether the work-item with flat index `i` belongs to the launch.
    pub open spec fn holds(self, i: int) -> bool {
        self.offset <= i < self.end
    }
}

/// The size of every launch but the last.
pub open spec fn chunk_size(total: int, capacity: int) -> int {
    if capacity < total {
        capacity
    } else {
        total
    }
}

/// The number of launches that cover `total` work-items.
pub open spec fn launches_needed(total: int, chunk: int) -> int {
    ceil_div(total, chunk)
}

/// The `j`th launch.
pub open spec fn launch_at(j: int, total: int, chunk: int) -> Launch {
    Launch {
        offset: (j * chunk) as usize,
        end: if (j + 1) * chunk < total {
            ((j + 1) * chunk) as usize
        } else {
            total as usize
        },
    }
}

/// `j` whole `b`s fall short of `a` exactly if `j` is less than the number
/// of `b`s that reach `a`.
pub proof fn lemma_ceil_div(a: int, b: int, j: int)
    requires
        0 <= a,
        0 < b,
    ensures
        0 <= ceil_div(a, b),
        j * b < a <==> j < ceil_div(a, b),
{
    let q = (a + b - 1) / b;
    let r = (a + b - 1) % b;
    lemma_fundamental_div_mod(a + b - 1, b);
    assert(0 <= q) by (nonlinear_arith)
        requires
            a + b - 1 == b * q + r,
            0 <= r < b,
            0 <= a,
            0 < b,
    ;
    assert(j * b < a <==> j < q) by (nonlinear_arith)
        requires
            a + b - 1 == b * q + r,
            0 <= r < b,
            0 < b,
    ;
}

/// Every work-item belongs to exactly one launch: the one whose number is
/// the work-item's index divided by the size of a launch.
pub proof fn lemma_launches_cover(total: int, chunk: int, i: int)
    requires
        0 < chunk <= total <= usize::MAX,
        0 <= i < total,
    ensures
        0 <= i / chunk < launches_needed(total, chunk),
        launch_at(i / chunk, total, chunk).holds(i),
        forall|j: int|
            0 <= j < launches_needed(total, chunk) && #[trigger] launch_at(j, total, chunk).holds(i)
                ==> j == i / chunk,
{
    let q = i / chunk;
    let r = i % chunk;
    lemma_fundamental_div_mod(i, chunk);
    assert(0 <= q && q * chunk <= i < (q + 1) * chunk && q * chunk <= usize::MAX)
        by (nonlinear_arith)
        requires
            i == chunk * q + r,
            0 <= r < chunk,
            0 <= i < total,
            total <= usize::MAX,
    ;
    lemma_ceil_div(total, chunk, q);
    assert forall|j: int|
        0 <= j < launches_needed(total, chunk) && #[trigger] launch_at(j, total, chunk).holds(
            i,
        ) implies j == q by {
        lemma_launch_bounds(total, chunk, j);
        assert(j == q) by (nonlinear_arith)
            requires
                j * chunk <= i,
                i < (j + 1) * chunk,
                q * chunk <= i < (q + 1) * chunk,
                0 < chunk,
        ;
    }
}

/// A launch lies inside the work-items, is not empty and is no longer than
/// the size of a launch.
pub proof fn lemma_launch_bounds(total: int, chunk: int, j: int)
    requires
        0 < chunk <= total <= usize::MAX,
        0 <= j < launches_needed(total, chunk),
    ensures
        launch_at(j, total, chunk).offset == j * chunk,
        launch_at(j, total, chunk).end == if (j + 1) * chunk < total {
            (j + 1) * chunk
        } else {
            total
        },
        launch_at(j, total, chunk).offset < launch_at(j, total, chunk).end <= total,
        launch_at(j, total, chunk).end - launch_at(j, total, chunk).offset <= chunk,
{
    lemma_ceil_div(total, chunk, j);
    assert(0 <= j * chunk && j * chunk < (j + 1) * chunk && (j + 1) * chunk == j * chunk + chunk)
        by (nonlinear_arith)
        requires
            0 <= j,
            0 < chunk,
    ;
}

/// Launches do not overlap: an earlier one ends where a later one begins,
/// or before.
pub proof fn lemma_launches_apart(total: int, chunk: int, j: int, k: int)
    requires
        0 < chunk <= total <= usize::MAX,
        0 <= j < k < launches_needed(total, chunk),
    ensures
        launch_at(j, total, chunk).end <= launch_at(k, total, chunk).offset,
{
    lemma_launch_bounds(total, chunk, j);
    lemma_launch_bounds(total, chunk, k);
    assert((j + 1) * chunk <= k * chunk) by (nonlinear_arith)
        requires
            j + 1 <= k,
            0 < chunk,
    ;
}

/// The plan of one run: how many work-items there are and how many of them
/// go into one launch.
#[derive(Clone, Copy, Debug)]
pub struct Dispatcher {
    total: usize,
    chunk: usize,
}

impl Dispatcher {
    /// The number of work-items.
    pub closed spec fn total(self) -> int {
        self.total as int
    }

    /// The size of every launch but the last.
    pub closed spec fn chunk(self) -> int {
        self.chunk as int
    }

    /// What holds of every plan: no launch is empty or longer than the
    /// work.
    pub open spec fn wf(self) -> bool {
        0 < self.chunk() <= self.total()
    }

    /// What holds of every state a run of this plan is in: the next launch
    /// begins at a whole number of launches, inside the work-items.
    pub open spec fn allows(self, state: DispatchState) -> bool {
        match state {
            DispatchState::Dispatching { offset } => offset < self.total() && offset as int
                % self.chunk() == 0,
            DispatchState::Completed => true,
            DispatchState::AbandonedShort { offset } => offset < self.total() && offset as int
                % self.chunk() == 0,
        }
    }

    /// The state after the device's answer `outcome` to the launch that was
    /// pending in `state`.
    pub open spec fn after(self, state: DispatchState, outcome: BindOutcome) -> DispatchState {
        match state {
            DispatchState::Dispatching { offset } => match outcome {
                BindOutcome::Refused => DispatchState::AbandonedShort { offset },
                BindOutcome::Bound => if offset + self.chunk() < self.total() {
                    DispatchState::Dispatching { offset: (offset + self.chunk()) as usize }
                } else {
                    DispatchState::Completed
                },
            },
            _ => state,
        }
    }

    /// The plan for `total` work-items on a device that takes at most
    /// `max_concurrent_work_items` of them in one launch.
    pub fn new(total: usize, max_concurrent_work_items: usize) -> (plan: Dispatcher)
        requires
            total > 0,
            max_concurrent_work_items > 0,
        ensures
            plan.wf(),
            plan.total() == total,
            plan.chunk() == chunk_size(total as int, max_concurrent_work_items as int),
    {
        let chunk = if max_concurrent_work_items < total {
            max_concurrent_work_items
        } else {
            total
        };
        Dispatcher { total, chunk }
    }

    /// The state in which every run begins: the launch at offset 0 is
    /// pending.
    pub fn start(&self) -> (state: DispatchState)
        requires
            self.wf(),
        ensures
            state == (DispatchState::Dispatching { offset: 0 }),
            self.allows(state),
    {
        proof {
            vstd::arithmetic::div_mod::lemma_small_mod(0, self.chunk as nat);
        }
        DispatchState::Dispatching { offset: 0 }
    }

    /// The launch to attempt next: none once the run has completed or was
    /// abandoned.
    pub fn pending(&self, state: DispatchState) -> (next: Option<Launch>)
        requires
            self.wf(),
            self.allows(state),
        ensures
            next == match state {
                DispatchState::Dispatching { offset } => Some(
                    launch_at(offset as int / self.chunk(), self.total(), self.chunk()),
                ),
                _ => None,
            },
            next matches Some(launch) ==> launch.offset == state->Dispatching_offset && launch.offset
                < launch.end <= self.total() && launch.end - launch.offset <= self.chunk(),
    {
        match state {
            DispatchState::Dispatching { offset } => {
                proof {
                    let j = offset as int / self.chunk();
                    lemma_fundamental_div_mod(offset as int, self.chunk());
                    assert(j * self.chunk() == offset) by (nonlinear_arith)
                        requires
                            offset == self.chunk() * j + 0,
                    ;
                    assert((j + 1) * self.chunk() == offset + self.chunk()) by (nonlinear_arith)
                        requires
                            j * self.chunk() == offset,
                    ;
                }
                let end = if self.chunk < self.total - offset {
                    offset + self.chunk
                } else {
                    self.total
                };
                Some(Launch { offset, end })
            },
            _ => None,
        }
    }

    /// The state after the device's answer to the pending launch. A bound
    /// launch has been issued, and the next one is pending unless that was
    /// the last. A refused one ends the run short. A run that has ended
    /// stays as it is.
    pub fn step(&self, state: DispatchState, outcome: BindOutcome) -> (next: DispatchState)
        requires
            self.wf(),
            self.allows(state),
        ensures
            next == self.after(state, outcome),
            self.allows(next),
    {
        match state {
            DispatchState::Dispatching { offset } => match outcome {
                BindOutcome::Refused => DispatchState::AbandonedShort { offset },
                BindOutcome::Bound => {
                    if self.chunk < self.total - offset {
                        proof {
                            let c = self.chunk();
                            let j = offset as int / c;
                            lemma_fundamental_div_mod(offset as int, c);
                            assert(offset + c == (j + 1) * c + 0) by (nonlinear_arith)
                                requires
                                    offset == c * j + 0,
                            ;
                            lemma_fundamental_div_mod_converse(offset + c, c, j + 1, 0);
                        }
                        DispatchState::Dispatching { offset: offset + self.chunk }
                    } else {
                        DispatchState::Completed
                    }
                },
            },
            _ => state,
        }
    }
}

/// A device that exists only as its two limits: the number of work-items
/// it takes in one launch, and the offset from which it refuses to bind a
/// launch's part of the output.
#[derive(Clone, Copy, Debug)]
pub struct SyntheticDevice {
    pub max_concurrent_work_items: usize,
    pub bind_limit: usize,
}

/// What a run on a synthetic device leaves behind: the output, the launches
/// that were issued, in their order, and the state in which the run ended.
#[derive(Debug)]
pub struct Run {
    pub output: Vec<u8>,
    pub launches: Vec<Launch>,
    pub state: DispatchState,
}

/// The number of launches that a device issues which binds only below
/// `bind_limit`: all that are needed, or those that begin below the limit.
pub open spec fn launches_issued(total: int, chunk: int, bind_limit: int) -> int {
    let needed = launches_needed(total, chunk);
    let bound = ceil_div(bind_limit, chunk);
    if needed <= bound {
        needed
    } else {
        bound
    }
}

/// The number of work-items that the issued launches cover.
pub open spec fn reach(total: int, chunk: int, bind_limit: int) -> int {
    let covered = launches_issued(total, chunk, bind_limit) * chunk;
    if total <= covered {
        total
    } else {
        covered
    }
}

/// The image with every pixel from the flat index `cut` on left at zero.
pub open spec fn partial(h: u32, w: u32, max_iterations: u32, cut: int) -> Seq<u8> {
    Seq::new(
        (h * w) as nat,
        |i: int|
            if i < cut {
                pixel(row_of(i, w as int) as u32, col_of(i, w as int) as u32, h, w, max_iterations)
            } else {
                0u8
            },
    )
}

/// The first `count` launches.
pub open spec fn launches_up_to(count: int, total: int, chunk: int) -> Seq<Launch> {
    Seq::new(count as nat, |j: int| launch_at(j, total, chunk))
}

/// On a device that takes `capacity` work-items in one launch and refuses
/// nothing, the dispatcher issues as many launches as `chunk` work-items
/// each need to reach `total`, and the output is the whole image, byte for
/// byte what the evaluators on the host return. That the launches do not
/// overlap and cover every work-item exactly once is
/// `lemma_launches_apart` and `lemma_launches_cover`.
pub proof fn lemma_full_dispatch(
    h: u32,
    w: u32,
    max_iterations: u32,
    capacity: int,
    bind_limit: int,
)
    requires
        0 < h * w <= bind_limit,
        0 < capacity,
    ensures
        ({
            let total = (h * w) as int;
            let chunk = chunk_size(total, capacity);
            &&& launches_issued(total, chunk, bind_limit) == ceil_div(total, chunk)
            &&& reach(total, chunk, bind_limit) == total
            &&& partial(h, w, max_iterations, reach(total, chunk, bind_limit)) == raster(
                h,
                w,
                max_iterations,
            )
        }),
{
    let total = (h * w) as int;
    let chunk = chunk_size(total, capacity);
    let needed = ceil_div(total, chunk);
    lemma_ceil_div(total, chunk, needed - 1);
    lemma_ceil_div(bind_limit, chunk, needed - 1);
    lemma_ceil_div(total, chunk, needed);
    lemma_ceil_div(total, chunk, 0);
    assert((needed - 1) * chunk < total);
    assert(needed <= ceil_div(bind_limit, chunk));
    assert(partial(h, w, max_iterations, total) =~= raster(h, w, max_iterations));
}

/// On a device that refuses to bind from the offset `bind_limit` on, where
/// a launch begins at that offset, the output holds the image's pixels
/// below `bind_limit` and zeros from there on.
pub proof fn lemma_degraded_dispatch(
    h: u32,
    w: u32,
    max_iterations: u32,
    capacity: int,
    bind_limit: int,
)
    requires
        0 < capacity,
        0 <= bind_limit < h * w,
        bind_limit % chunk_size((h * w) as int, capacity) == 0,
    ensures
        ({
            let total = (h * w) as int;
            let chunk = chunk_size(total, capacity);
            let out = partial(h, w, max_iterations, reach(total, chunk, bind_limit));
            &&& reach(total, chunk, bind_limit) == bind_limit
            &&& launches_issued(total, chunk, bind_limit) * chunk == bind_limit
            &&& out.len() == total
            &&& forall|i: int|
                0 <= i < bind_limit ==> out[i] == #[trigger] raster(h, w, max_iterations)[i]
            &&& forall|i: int| bind_limit <= i < total ==> #[trigger] out[i] == 0
        }),
{
    let total = (h * w) as int;
    let chunk = chunk_size(total, capacity);
    let bound = ceil_div(bind_limit, chunk);
    let j = bind_limit / chunk;
    lemma_fundamental_div_mod(bind_limit, chunk);
    assert(j * chunk == bind_limit) by (nonlinear_arith)
        requires
            bind_limit == chunk * j + 0,
    ;
    lemma_ceil_div(bind_limit, chunk, j);
    lemma_ceil_div(bind_limit, chunk, j - 1);
    assert((j - 1) * chunk < bind_limit) by (nonlinear_arith)
        requires
            j * chunk == bind_limit,
            chunk > 0,
    ;
    assert(bound == j);
    lemma_ceil_div(total, chunk, j);
}

/// An output of `len` zeros.
fn zeros(len: usize) -> (out: Vec<u8>)
    ensures
        out@ == Seq::new(len as nat, |i: int| 0u8),
{
    let mut out: Vec<u8> = Vec::new();
    let mut i: usize = 0;
    while i < len
        invariant
            i <= len,
            out@ == Seq::new(i as nat, |i: int| 0u8),
        decreases len - i,
    {
        out.push(0);
        i = i + 1;
        assert(out@ =~= Seq::new(i as nat, |i: int| 0u8));
    }
    out
}

/// One launch on the host: each of its work-items writes its pixel.
fn run_launch(output: &mut Vec<u8>, launch: Launch, h: u32, w: u32, max_iterations: u32)
    requires
        w > 0,
        h * w <= u32::MAX,
        launch.offset <= launch.end <= h * w,
        old(output)@ == partial(h, w, max_iterations, launch.offset as int),
    ensures
        final(output)@ == partial(h, w, max_iterations, launch.end as int),
{
    let mut item: usize = 0;
    let items = launch.end - launch.offset;
    while item < items
        invariant
            w > 0,
            h * w <= u32::MAX,
            launch.offset <= launch.end <= h * w,
            items == launch.end - launch.offset,
            item <= items,
            output@ == partial(h, w, max_iterations, launch.offset + item),
        decreases items - item,
    {
        let mut y: u8 = 0;
        mandelbrot(&mut y, launch.offset as u32, item as u32, h, w, max_iterations);
        output.set(launch.offset + item, y);
        item = item + 1;
        assert(output@ =~= partial(h, w, max_iterations, launch.offset + item));
    }
}

/// The dispatcher run against a synthetic device, each launch computed on
/// the host.
///
/// The device binds the launches that begin below its `bind_limit`. The run
/// issues the launches in the order of their offsets up to the first one
/// that the device refuses, and the output holds the pixels that those
/// launches cover and zeros from there on.
pub fn simulate(device: &SyntheticDevice, h: u32, w: u32, max_iterations: u32) -> (run: Run)
    requires
        h > 0,
        w > 0,
        h * w <= u32::MAX,
        device.max_concurrent_work_items > 0,
    ensures
        ({
            let total = (h * w) as int;
            let chunk = chunk_size(total, device.max_concurrent_work_items as int);
            let issued = launches_issued(total, chunk, device.bind_limit as int);
            &&& run.output@ == partial(
                h,
                w,
                max_iterations,
                reach(total, chunk, device.bind_limit as int),
            )
            &&& run.launches@ == launches_up_to(issued, total, chunk)
            &&& run.state == if issued == launches_needed(total, chunk) {
                DispatchState::Completed
            } else {
                DispatchState::AbandonedShort { offset: (issued * chunk) as usize }
            }
        }),
{
    proof {
        assert(0 < h * w) by (nonlinear_arith)
            requires
                h > 0,
                w > 0,
        ;
    }
    let total: usize = (h as u64 * w as u64) as usize;
    let plan = Dispatcher::new(total, device.max_concurrent_work_items);
    let ghost chunk = plan.chunk();
    let ghost limit = device.bind_limit as int;
    let mut output = zeros(total);
    let mut launches: Vec<Launch> = Vec::new();
    let mut state = plan.start();
    let ghost mut j: int = 0;
    proof {
        lemma_ceil_div(limit, chunk, -1);
        lemma_ceil_div(total as int, chunk, 0);
        assert(0 * chunk == 0);
        assert(output@ =~= partial(h, w, max_iterations, 0));
        assert(launches@ =~= launches_up_to(0, total as int, chunk));
    }
    loop
        invariant_except_break
            state == (DispatchState::Dispatching { offset: (j * chunk) as usize }),
            0 <= j < launches_needed(total as int, chunk),
            j <= ceil_div(limit, chunk),
            output@ == partial(h, w, max_iterations, j * chunk),
            launches@ == launches_up_to(j, total as int, chunk),
            0 <= j * chunk <= total,
        invariant
            w > 0,
            0 < total == h * w <= u32::MAX,
            plan.wf(),
            plan.total() == total,
            plan.chunk() == chunk,
            chunk == chunk_size(total as int, device.max_concurrent_work_items as int),
            limit == device.bind_limit,
            plan.allows(state),
        ensures
            output@ == partial(h, w, max_iterations, reach(total as int, chunk, limit)),
            launches@ == launches_up_to(
                launches_issued(total as int, chunk, limit),
                total as int,
                chunk,
            ),
            state == if launches_issued(total as int, chunk, limit) == launches_needed(
                total as int,
                chunk,
            ) {
                DispatchState::Completed
            } else {
                DispatchState::AbandonedShort {
                    offset: (launches_issued(total as int, chunk, limit) * chunk) as usize,
                }
            },
        decreases launches_needed(total as int, chunk) - j,
    {
        let launch = match plan.pending(state) {
            Some(launch) => launch,
            None => {
                break ;
            },
        };
        proof {
            lemma_launch_bounds(total as int, chunk, j);
            lemma_fundamental_div_mod_converse(j * chunk, chunk, j, 0);
            assert(launch == launch_at(j, total as int, chunk));
            lemma_ceil_div(limit, chunk, j);
            lemma_ceil_div(total as int, chunk, j + 1);
            assert((j + 1) * chunk == j * chunk + chunk) by (nonlinear_arith);
        }
        if launch.offset < device.bind_limit {
            run_launch(&mut output, launch, h, w, max_iterations);
            launches.push(launch);
            state = plan.step(state, BindOutcome::Bound);
            proof {
                assert(launches@ =~= launches_up_to(j + 1, total as int, chunk));
                if launch.end == total {
                    // that was the last launch: all that are needed were issued
                    assert(launches_issued(total as int, chunk, limit) == j + 1);
                    assert(reach(total as int, chunk, limit) == total);
                }
                j = j + 1;
            }
            if launch.end == total {
                break ;
            }
        } else {
            state = plan.step(state, BindOutcome::Refused);
            proof {
                assert(launches_issued(total as int, chunk, limit) == j);
                assert(reach(total as int, chunk, limit) == j * chunk);
            }
            break ;
        }
    }
    Run { output, launches, state }
}

} // verus!

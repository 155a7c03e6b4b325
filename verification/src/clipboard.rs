//! The decisions of the clipboard transfers. Each transfer is a state
//! machine: it is told what the last clipboard call returned and answers
//! with the next call to make, or with the outcome. The caller performs the
//! calls.
use vstd::prelude::*;
use crate::formats::{ClipboardFormats, format_code};

verus! {

/// A call into the clipboard or global memory API.
#[derive(Debug, Clone, Copy, PartialEq, Eq, Structural)]
pub enum ClipboardCall {
    /// `OpenClipboard(NULL)`.
    OpenClipboard,
    /// `EmptyClipboard()`.
    EmptyClipboard,
    /// `GlobalAlloc(flags, bytes)`.
    GlobalAlloc { flags: u32, bytes: usize },
    /// `GlobalLock` on the memory handle of the transfer.
    GlobalLock,
    /// Copy `bytes` bytes of the caller's data into the locked memory.
    CopyToGlobal { bytes: usize },
    /// Copy `count` elements out of the locked memory.
    CopyFromGlobal { count: usize },
    /// `GlobalUnlock` on the locked memory.
    GlobalUnlock,
    /// `SetClipboardData(format, locked memory)`.
    SetClipboardData { format: u32 },
    /// `GetClipboardData(format)`.
    GetClipboardData { format: u32 },
    /// `GlobalSize` of the clipboard data handle.
    GlobalSize,
    /// `CloseClipboard()`.
    CloseClipboard,
}

/// What a transfer asks for next.
#[derive(Debug, Clone, Copy, PartialEq, Eq, Structural)]
pub enum ClipboardStep {
    /// Make this call and report what it returned.
    Call(ClipboardCall),
    /// The transfer is over: `true` for success, `false` for the error that
    /// the operating system last reported.
    Finish(bool),
}

/// Memory flag `GMEM_MOVEABLE` used for clipboard data.
pub const GMEM_MOVEABLE: u32 = 0x2;

/// Where a transfer that places data on the clipboard stands: which call it
/// is waiting on.
#[derive(Debug, Clone, Copy, PartialEq, Eq, Structural)]
pub enum SetStage {
    Idle,
    Opening,
    Emptying,
    Allocating,
    Locking,
    Copying,
    Unlocking,
    Setting,
    Closing,
    ClosingAfterFailure,
    Finished(bool),
}

/// Where a transfer that reads data from the clipboard stands.
#[derive(Debug, Clone, Copy, PartialEq, Eq, Structural)]
pub enum GetStage {
    Idle,
    Opening,
    GettingData,
    Locking,
    Sizing,
    Copying,
    Unlocking,
    Closing,
    ClosingAfterFailure,
    Finished(bool),
}

/// One decision of `set_clipboard_data`: `reply` is what the call made for
/// the current stage returned (0 for failure, as the API reports it).
pub open spec fn set_transition(stage: SetStage, bytes: usize, format: u32, reply: usize) -> (
    SetStage,
    ClipboardStep,
) {
    let close = ClipboardStep::Call(ClipboardCall::CloseClipboard);
    match stage {
        SetStage::Idle => (SetStage::Opening, ClipboardStep::Call(ClipboardCall::OpenClipboard)),
        SetStage::Opening => if reply == 0 {
            (SetStage::Finished(false), ClipboardStep::Finish(false))
        } else {
            (SetStage::Emptying, ClipboardStep::Call(ClipboardCall::EmptyClipboard))
        },
        SetStage::Emptying => if reply == 0 {
            (SetStage::ClosingAfterFailure, close)
        } else {
            (
                SetStage::Allocating,
                ClipboardStep::Call(ClipboardCall::GlobalAlloc { flags: GMEM_MOVEABLE, bytes }),
            )
        },
        SetStage::Allocating => if reply == 0 {
            (SetStage::ClosingAfterFailure, close)
        } else {
            (SetStage::Locking, ClipboardStep::Call(ClipboardCall::GlobalLock))
        },
        SetStage::Locking => if reply == 0 {
            (SetStage::ClosingAfterFailure, close)
        } else {
            (SetStage::Copying, ClipboardStep::Call(ClipboardCall::CopyToGlobal { bytes }))
        },
        SetStage::Copying => (SetStage::Unlocking, ClipboardStep::Call(ClipboardCall::GlobalUnlock)),
        SetStage::Unlocking => (
            SetStage::Setting,
            ClipboardStep::Call(ClipboardCall::SetClipboardData { format }),
        ),
        SetStage::Setting => if reply == 0 {
            (SetStage::ClosingAfterFailure, close)
        } else {
            (SetStage::Closing, close)
        },
        SetStage::Closing => if reply == 0 {
            (SetStage::Finished(false), ClipboardStep::Finish(false))
        } else {
            (SetStage::Finished(true), ClipboardStep::Finish(true))
        },
        SetStage::ClosingAfterFailure => (SetStage::Finished(false), ClipboardStep::Finish(false)),
        SetStage::Finished(ok) => (SetStage::Finished(ok), ClipboardStep::Finish(ok)),
    }
}

/// One decision of `get_clipboard_data`, for elements of `elem_size` bytes.
/// After `GlobalSize` the stage remembers how many whole elements the data
/// holds.
pub open spec fn get_transition(
    stage: GetStage,
    format: u32,
    elem_size: usize,
    count: usize,
    reply: usize,
) -> (GetStage, usize, ClipboardStep) {
    let close = ClipboardStep::Call(ClipboardCall::CloseClipboard);
    match stage {
        GetStage::Idle => (GetStage::Opening, count, ClipboardStep::Call(ClipboardCall::OpenClipboard)),
        GetStage::Opening => if reply == 0 {
            (GetStage::Finished(false), count, ClipboardStep::Finish(false))
        } else {
            (
                GetStage::GettingData,
                count,
                ClipboardStep::Call(ClipboardCall::GetClipboardData { format }),
            )
        },
        GetStage::GettingData => if reply == 0 {
            (GetStage::ClosingAfterFailure, count, close)
        } else {
            (GetStage::Locking, count, ClipboardStep::Call(ClipboardCall::GlobalLock))
        },
        GetStage::Locking => if reply == 0 {
            (GetStage::ClosingAfterFailure, count, close)
        } else {
            (GetStage::Sizing, count, ClipboardStep::Call(ClipboardCall::GlobalSize))
        },
        GetStage::Sizing => {
            let n = (reply / elem_size) as usize;
            if n == 0 {
                (GetStage::ClosingAfterFailure, n, close)
            } else {
                (
                    GetStage::Copying,
                    n,
                    ClipboardStep::Call(ClipboardCall::CopyFromGlobal { count: n }),
                )
            }
        },
        GetStage::Copying => (GetStage::Unlocking, count, ClipboardStep::Call(ClipboardCall::GlobalUnlock)),
        GetStage::Unlocking => if reply == 0 {
            (GetStage::ClosingAfterFailure, count, close)
        } else {
            (GetStage::Closing, count, close)
        },
        GetStage::Closing => if reply == 0 {
            (GetStage::Finished(false), count, ClipboardStep::Finish(false))
        } else {
            (GetStage::Finished(true), count, ClipboardStep::Finish(true))
        },
        GetStage::ClosingAfterFailure => (GetStage::Finished(false), count, ClipboardStep::Finish(false)),
        GetStage::Finished(ok) => (GetStage::Finished(ok), count, ClipboardStep::Finish(ok)),
    }
}

/// A transfer that places `bytes` bytes of data on the clipboard.
pub struct SetClipboard {
    pub bytes: usize,
    pub format: u32,
    pub stage: SetStage,
}

impl SetClipboard {
    /// A transfer of `bytes` bytes in format `cf` that has not started.
    pub fn new(bytes: usize, cf: ClipboardFormats) -> (t: SetClipboard)
        ensures
            t.bytes == bytes,
            t.format == format_code(cf),
            t.stage == SetStage::Idle,
    {
        SetClipboard { bytes, format: cf.code(), stage: SetStage::Idle }
    }

    /// Takes what the last call returned and gives the next step.
    pub fn step(&mut self, reply: usize) -> (s: ClipboardStep)
        ensures
            final(self).bytes == old(self).bytes,
            final(self).format == old(self).format,
            (final(self).stage, s) == set_transition(
                old(self).stage,
                old(self).bytes,
                old(self).format,
                reply,
            ),
    {
        let close = ClipboardStep::Call(ClipboardCall::CloseClipboard);
        let (stage, s) = match self.stage {
            SetStage::Idle => (SetStage::Opening, ClipboardStep::Call(ClipboardCall::OpenClipboard)),
            SetStage::Opening => if reply == 0 {
                (SetStage::Finished(false), ClipboardStep::Finish(false))
            } else {
                (SetStage::Emptying, ClipboardStep::Call(ClipboardCall::EmptyClipboard))
            },
            SetStage::Emptying => if reply == 0 {
                (SetStage::ClosingAfterFailure, close)
            } else {
                (
                    SetStage::Allocating,
                    ClipboardStep::Call(
                        ClipboardCall::GlobalAlloc { flags: GMEM_MOVEABLE, bytes: self.bytes },
                    ),
                )
            },
            SetStage::Allocating => if reply == 0 {
                (SetStage::ClosingAfterFailure, close)
            } else {
                (SetStage::Locking, ClipboardStep::Call(ClipboardCall::GlobalLock))
            },
            SetStage::Locking => if reply == 0 {
                (SetStage::ClosingAfterFailure, close)
            } else {
                (
                    SetStage::Copying,
                    ClipboardStep::Call(ClipboardCall::CopyToGlobal { bytes: self.bytes }),
                )
            },
            SetStage::Copying => (SetStage::Unlocking, ClipboardStep::Call(ClipboardCall::GlobalUnlock)),
            SetStage::Unlocking => (
                SetStage::Setting,
                ClipboardStep::Call(ClipboardCall::SetClipboardData { format: self.format }),
            ),
            SetStage::Setting => if reply == 0 {
                (SetStage::ClosingAfterFailure, close)
            } else {
                (SetStage::Closing, close)
            },
            SetStage::Closing => if reply == 0 {
                (SetStage::Finished(false), ClipboardStep::Finish(false))
            } else {
                (SetStage::Finished(true), ClipboardStep::Finish(true))
            },
            SetStage::ClosingAfterFailure => (SetStage::Finished(false), ClipboardStep::Finish(false)),
            SetStage::Finished(ok) => (SetStage::Finished(ok), ClipboardStep::Finish(ok)),
        };
        self.stage = stage;
        s
    }
}

/// A transfer that reads clipboard data as elements of `elem_size` bytes.
pub struct GetClipboard {
    pub format: u32,
    pub elem_size: usize,
    pub count: usize,
    pub stage: GetStage,
}

impl GetClipboard {
    /// A transfer of format `cf`, in elements of `elem_size` bytes, that
    /// has not started.
    pub fn new(cf: ClipboardFormats, elem_size: usize) -> (t: GetClipboard)
        ensures
            t.format == format_code(cf),
            t.elem_size == elem_size,
            t.count == 0,
            t.stage == GetStage::Idle,
    {
        GetClipboard { format: cf.code(), elem_size, count: 0, stage: GetStage::Idle }
    }

    /// Takes what the last call returned and gives the next step. The data
    /// size is divided by the element size, so when the transfer waits on
    /// `GlobalSize` the element size must not be 0.
    pub fn step(&mut self, reply: usize) -> (s: ClipboardStep)
        requires
            old(self).stage == GetStage::Sizing ==> old(self).elem_size > 0,
        ensures
            final(self).format == old(self).format,
            final(self).elem_size == old(self).elem_size,
            (final(self).stage, final(self).count, s) == get_transition(
                old(self).stage,
                old(self).format,
                old(self).elem_size,
                old(self).count,
                reply,
            ),
    {
        let close = ClipboardStep::Call(ClipboardCall::CloseClipboard);
        let (stage, s) = match self.stage {
            GetStage::Idle => (GetStage::Opening, ClipboardStep::Call(ClipboardCall::OpenClipboard)),
            GetStage::Opening => if reply == 0 {
                (GetStage::Finished(false), ClipboardStep::Finish(false))
            } else {
                (
                    GetStage::GettingData,
                    ClipboardStep::Call(ClipboardCall::GetClipboardData { format: self.format }),
                )
            },
            GetStage::GettingData => if reply == 0 {
                (GetStage::ClosingAfterFailure, close)
            } else {
                (GetStage::Locking, ClipboardStep::Call(ClipboardCall::GlobalLock))
            },
            GetStage::Locking => if reply == 0 {
                (GetStage::ClosingAfterFailure, close)
            } else {
                (GetStage::Sizing, ClipboardStep::Call(ClipboardCall::GlobalSize))
            },
            GetStage::Sizing => {
                let n = reply / self.elem_size;
                self.count = n;
                if n == 0 {
                    (GetStage::ClosingAfterFailure, close)
                } else {
                    (
                        GetStage::Copying,
                        ClipboardStep::Call(ClipboardCall::CopyFromGlobal { count: n }),
                    )
                }
            },
            GetStage::Copying => (GetStage::Unlocking, ClipboardStep::Call(ClipboardCall::GlobalUnlock)),
            GetStage::Unlocking => if reply == 0 {
                (GetStage::ClosingAfterFailure, close)
            } else {
                (GetStage::Closing, close)
            },
            GetStage::Closing => if reply == 0 {
                (GetStage::Finished(false), ClipboardStep::Finish(false))
            } else {
                (GetStage::Finished(true), ClipboardStep::Finish(true))
            },
            GetStage::ClosingAfterFailure => (GetStage::Finished(false), ClipboardStep::Finish(false)),
            GetStage::Finished(ok) => (GetStage::Finished(ok), ClipboardStep::Finish(ok)),
        };
        self.stage = stage;
        s
    }
}

} // verus!

verus! {

/// The stages of a placing transfer in which the clipboard is open: after
/// `OpenClipboard` succeeded and before `CloseClipboard` was asked for.
pub open spec fn set_holds_clipboard(stage: SetStage) -> bool {
    match stage {
        SetStage::Emptying | SetStage::Allocating | SetStage::Locking | SetStage::Copying
        | SetStage::Unlocking | SetStage::Setting => true,
        _ => false,
    }
}

/// The stages of a reading transfer in which the clipboard is open.
pub open spec fn get_holds_clipboard(stage: GetStage) -> bool {
    match stage {
        GetStage::GettingData | GetStage::Locking | GetStage::Sizing | GetStage::Copying
        | GetStage::Unlocking => true,
        _ => false,
    }
}

/// A placing transfer opens the clipboard only when it starts, holds it
/// exactly from a successful `OpenClipboard` on, releases it only by asking
/// for `CloseClipboard`, and never finishes while holding it.
pub proof fn lemma_set_clipboard_always_closed(
    stage: SetStage,
    bytes: usize,
    format: u32,
    reply: usize,
)
    ensures
        ({
            let (next, step) = set_transition(stage, bytes, format, reply);
            &&& (step == ClipboardStep::Call(ClipboardCall::OpenClipboard)) <==> stage
                == SetStage::Idle
            &&& step is Finish ==> !set_holds_clipboard(stage) && !set_holds_clipboard(next)
            &&& step == ClipboardStep::Call(ClipboardCall::CloseClipboard) ==> set_holds_clipboard(
                stage,
            ) && !set_holds_clipboard(next)
            &&& set_holds_clipboard(next) <==> ((set_holds_clipboard(stage) || (stage
                == SetStage::Opening && reply != 0)) && step != ClipboardStep::Call(
                ClipboardCall::CloseClipboard,
            ))
        }),
{
}

/// The same for a reading transfer.
pub proof fn lemma_get_clipboard_always_closed(
    stage: GetStage,
    format: u32,
    elem_size: usize,
    count: usize,
    reply: usize,
)
    requires
        elem_size > 0,
    ensures
        ({
            let (next, n, step) = get_transition(stage, format, elem_size, count, reply);
            &&& (step == ClipboardStep::Call(ClipboardCall::OpenClipboard)) <==> stage
                == GetStage::Idle
            &&& step is Finish ==> !get_holds_clipboard(stage) && !get_holds_clipboard(next)
            &&& step == ClipboardStep::Call(ClipboardCall::CloseClipboard) ==> get_holds_clipboard(
                stage,
            ) && !get_holds_clipboard(next)
            &&& get_holds_clipboard(next) <==> ((get_holds_clipboard(stage) || (stage
                == GetStage::Opening && reply != 0)) && step != ClipboardStep::Call(
                ClipboardCall::CloseClipboard,
            ))
        }),
{
}

/// The stage a placing transfer reaches after being told `replies` in turn.
pub open spec fn set_run(stage: SetStage, bytes: usize, format: u32, replies: Seq<usize>) -> SetStage
    decreases replies.len(),
{
    if replies.len() == 0 {
        stage
    } else {
        set_run(
            set_transition(stage, bytes, format, replies[0]).0,
            bytes,
            format,
            replies.drop_first(),
        )
    }
}

/// The stage and element count a reading transfer reaches after `replies`.
pub open spec fn get_run(
    stage: GetStage,
    format: u32,
    elem_size: usize,
    count: usize,
    replies: Seq<usize>,
) -> (GetStage, usize)
    decreases replies.len(),
{
    if replies.len() == 0 {
        (stage, count)
    } else {
        let (next, n, _) = get_transition(stage, format, elem_size, count, replies[0]);
        get_run(next, format, elem_size, n, replies.drop_first())
    }
}

/// A finished placing transfer stays finished with the same outcome.
pub proof fn lemma_set_finished_stays(ok: bool, bytes: usize, format: u32, replies: Seq<usize>)
    ensures
        set_run(SetStage::Finished(ok), bytes, format, replies) == SetStage::Finished(ok),
    decreases replies.len(),
{
    if replies.len() > 0 {
        lemma_set_finished_stays(ok, bytes, format, replies.drop_first());
    }
}

/// Placing data on the clipboard finishes within nine steps, and succeeds
/// exactly when opening, emptying, allocating, locking, setting the data and
/// closing all succeed (`replies[k]` answers the call asked for at step
/// `k - 1`; the replies to the copy and to the unlock are not looked at).
pub proof fn lemma_set_clipboard_outcome(bytes: usize, format: u32, replies: Seq<usize>)
    requires
        replies.len() >= 9,
    ensures
        set_run(SetStage::Idle, bytes, format, replies) == SetStage::Finished(
            replies[1] != 0 && replies[2] != 0 && replies[3] != 0 && replies[4] != 0
                && replies[7] != 0 && replies[8] != 0,
        ),
{
    let r = replies;
    let s1 = set_transition(SetStage::Idle, bytes, format, r[0]).0;
    let s2 = set_transition(s1, bytes, format, r[1]).0;
    let s3 = set_transition(s2, bytes, format, r[2]).0;
    let s4 = set_transition(s3, bytes, format, r[3]).0;
    let s5 = set_transition(s4, bytes, format, r[4]).0;
    let s6 = set_transition(s5, bytes, format, r[5]).0;
    let s7 = set_transition(s6, bytes, format, r[6]).0;
    let s8 = set_transition(s7, bytes, format, r[7]).0;
    let s9 = set_transition(s8, bytes, format, r[8]).0;
    let ok = r[1] != 0 && r[2] != 0 && r[3] != 0 && r[4] != 0 && r[7] != 0 && r[8] != 0;
    assert(s9 == SetStage::Finished(ok));
    let p = r.subrange(0, 9);
    assert(set_run(SetStage::Idle, bytes, format, p) == s9) by {
        reveal_with_fuel(set_run, 10);
        assert(p.drop_first() =~= r.subrange(1, 9));
        assert(p.drop_first().drop_first() =~= r.subrange(2, 9));
        assert(r.subrange(2, 9).drop_first() =~= r.subrange(3, 9));
        assert(r.subrange(3, 9).drop_first() =~= r.subrange(4, 9));
        assert(r.subrange(4, 9).drop_first() =~= r.subrange(5, 9));
        assert(r.subrange(5, 9).drop_first() =~= r.subrange(6, 9));
        assert(r.subrange(6, 9).drop_first() =~= r.subrange(7, 9));
        assert(r.subrange(7, 9).drop_first() =~= r.subrange(8, 9));
        assert(r.subrange(8, 9).drop_first() =~= r.subrange(9, 9));
    }
    lemma_set_run_prefix(SetStage::Idle, bytes, format, r, 9);
    lemma_set_finished_stays(ok, bytes, format, r.subrange(9, r.len() as int));
}

/// Running through the first `k` replies, then the rest.
proof fn lemma_set_run_prefix(stage: SetStage, bytes: usize, format: u32, r: Seq<usize>, k: int)
    requires
        0 <= k <= r.len(),
    ensures
        set_run(stage, bytes, format, r) == set_run(
            set_run(stage, bytes, format, r.subrange(0, k)),
            bytes,
            format,
            r.subrange(k, r.len() as int),
        ),
    decreases k,
{
    if k > 0 {
        let next = set_transition(stage, bytes, format, r[0]).0;
        lemma_set_run_prefix(next, bytes, format, r.drop_first(), k - 1);
        assert(r.drop_first().subrange(0, k - 1) =~= r.subrange(0, k).drop_first());
        assert(r.drop_first().subrange(k - 1, r.len() - 1) =~= r.subrange(k, r.len() as int));
    } else {
        assert(r.subrange(0, 0).len() == 0);
        assert(r.subrange(0, r.len() as int) =~= r);
    }
}

/// Running a reading transfer through the first `k` replies, then the rest.
proof fn lemma_get_run_prefix(
    stage: GetStage,
    format: u32,
    elem_size: usize,
    count: usize,
    r: Seq<usize>,
    k: int,
)
    requires
        0 <= k <= r.len(),
    ensures
        ({
            let (mid, n) = get_run(stage, format, elem_size, count, r.subrange(0, k));
            get_run(stage, format, elem_size, count, r) == get_run(
                mid,
                format,
                elem_size,
                n,
                r.subrange(k, r.len() as int),
            )
        }),
    decreases k,
{
    if k > 0 {
        let (next, n, _) = get_transition(stage, format, elem_size, count, r[0]);
        lemma_get_run_prefix(next, format, elem_size, n, r.drop_first(), k - 1);
        assert(r.drop_first().subrange(0, k - 1) =~= r.subrange(0, k).drop_first());
        assert(r.drop_first().subrange(k - 1, r.len() - 1) =~= r.subrange(k, r.len() as int));
    } else {
        assert(r.subrange(0, 0).len() == 0);
        assert(r.subrange(0, r.len() as int) =~= r);
    }
}

/// Reading the clipboard finishes within eight steps, and succeeds exactly
/// when opening, getting the data, locking it, finding at least one whole
/// element in it, unlocking and closing all succeed; the number of elements
/// copied out is then the data size divided by the element size
/// (`replies[k]` answers the call asked for at step `k - 1`; the reply to
/// the copy is not looked at).
pub proof fn lemma_get_clipboard_outcome(format: u32, elem_size: usize, replies: Seq<usize>)
    requires
        elem_size > 0,
        replies.len() >= 8,
    ensures
        ({
            let (stage, count) = get_run(GetStage::Idle, format, elem_size, 0, replies);
            let ok = replies[1] != 0 && replies[2] != 0 && replies[3] != 0 && replies[4]
                / elem_size != 0 && replies[6] != 0 && replies[7] != 0;
            &&& stage == GetStage::Finished(ok)
            &&& ok ==> count == replies[4] / elem_size
        }),
{
    let r = replies;
    let t0 = get_transition(GetStage::Idle, format, elem_size, 0, r[0]);
    let t1 = get_transition(t0.0, format, elem_size, t0.1, r[1]);
    let t2 = get_transition(t1.0, format, elem_size, t1.1, r[2]);
    let t3 = get_transition(t2.0, format, elem_size, t2.1, r[3]);
    let t4 = get_transition(t3.0, format, elem_size, t3.1, r[4]);
    let t5 = get_transition(t4.0, format, elem_size, t4.1, r[5]);
    let t6 = get_transition(t5.0, format, elem_size, t5.1, r[6]);
    let t7 = get_transition(t6.0, format, elem_size, t6.1, r[7]);
    let ok = r[1] != 0 && r[2] != 0 && r[3] != 0 && r[4] / elem_size != 0 && r[6] != 0 && r[7]
        != 0;
    assert(t7.0 == GetStage::Finished(ok));
    assert(ok ==> t7.1 == r[4] / elem_size);
    let p = r.subrange(0, 8);
    assert(get_run(GetStage::Idle, format, elem_size, 0, p) == (t7.0, t7.1)) by {
        reveal_with_fuel(get_run, 9);
        assert(p.drop_first() =~= r.subrange(1, 8));
        assert(r.subrange(1, 8).drop_first() =~= r.subrange(2, 8));
        assert(r.subrange(2, 8).drop_first() =~= r.subrange(3, 8));
        assert(r.subrange(3, 8).drop_first() =~= r.subrange(4, 8));
        assert(r.subrange(4, 8).drop_first() =~= r.subrange(5, 8));
        assert(r.subrange(5, 8).drop_first() =~= r.subrange(6, 8));
        assert(r.subrange(6, 8).drop_first() =~= r.subrange(7, 8));
        assert(r.subrange(7, 8).drop_first() =~= r.subrange(8, 8));
    }
    lemma_get_run_prefix(GetStage::Idle, format, elem_size, 0, r, 8);
    lemma_get_finished_stays_count(ok, format, elem_size, t7.1, r.subrange(8, r.len() as int));
}

/// A finished reading transfer keeps its outcome and its element count.
proof fn lemma_get_finished_stays_count(
    ok: bool,
    format: u32,
    elem_size: usize,
    count: usize,
    replies: Seq<usize>,
)
    ensures
        get_run(GetStage::Finished(ok), format, elem_size, count, replies) == (
            GetStage::Finished(ok),
            count,
        ),
    decreases replies.len(),
{
    if replies.len() > 0 {
        lemma_get_finished_stays_count(ok, format, elem_size, count, replies.drop_first());
    }
}

} // verus!

verus! {

/// Every call a placing transfer asks for carries the transfer's own
/// parameters: the data is registered in the transfer's format, the memory
/// allocated is movable and holds exactly the transfer's bytes, and exactly
/// that many bytes are copied. It never asks for a call that reads.
pub proof fn lemma_set_clipboard_calls_carry_parameters(
    stage: SetStage,
    bytes: usize,
    format: u32,
    reply: usize,
)
    ensures
        ({
            let step = set_transition(stage, bytes, format, reply).1;
            &&& step matches ClipboardStep::Call(ClipboardCall::SetClipboardData { format: f })
                ==> f == format
            &&& step matches ClipboardStep::Call(ClipboardCall::GlobalAlloc { flags, bytes: n })
                ==> flags == 0x2 && n == bytes
            &&& step matches ClipboardStep::Call(ClipboardCall::CopyToGlobal { bytes: n }) ==> n
                == bytes
            &&& !(step matches ClipboardStep::Call(ClipboardCall::GetClipboardData { .. }))
            &&& step != ClipboardStep::Call(ClipboardCall::GlobalSize)
            &&& !(step matches ClipboardStep::Call(ClipboardCall::CopyFromGlobal { .. }))
        }),
{
}

/// A placing transfer created for format `cf` registers its data as `cf`:
/// whatever replies it is given, any `SetClipboardData` it asks for carries
/// the identifier of `cf`.
pub proof fn lemma_set_clipboard_registers_its_format(
    cf: ClipboardFormats,
    bytes: usize,
    replies: Seq<usize>,
    k: int,
)
    requires
        0 <= k < replies.len(),
    ensures
        set_transition(
            set_run(SetStage::Idle, bytes, format_code(cf), replies.subrange(0, k)),
            bytes,
            format_code(cf),
            replies[k],
        ).1 matches ClipboardStep::Call(ClipboardCall::SetClipboardData { format: f }) ==> f
            == format_code(cf),
{
    lemma_set_clipboard_calls_carry_parameters(
        set_run(SetStage::Idle, bytes, format_code(cf), replies.subrange(0, k)),
        bytes,
        format_code(cf),
        replies[k],
    );
}

/// A reading transfer copies out exactly the number of whole elements that
/// the clipboard data holds: the only copy it asks for follows the size
/// query, for the data size divided by the element size, at least one
/// element, and that number is the count the transfer keeps. No other
/// step changes the count, the data is asked for in the transfer's format,
/// and it never asks for a call that writes.
pub proof fn lemma_get_clipboard_copies_whole_elements(
    stage: GetStage,
    format: u32,
    elem_size: usize,
    count: usize,
    reply: usize,
)
    requires
        elem_size > 0,
    ensures
        ({
            let (next, n, step) = get_transition(stage, format, elem_size, count, reply);
            &&& step matches ClipboardStep::Call(ClipboardCall::CopyFromGlobal { count: c }) ==> {
                &&& stage == GetStage::Sizing
                &&& c == reply / elem_size
                &&& c > 0
                &&& c * elem_size <= reply < (c + 1) * elem_size
                &&& n == c
            }
            &&& stage == GetStage::Sizing ==> n == reply / elem_size
            &&& stage != GetStage::Sizing ==> n == count
            &&& step matches ClipboardStep::Call(ClipboardCall::GetClipboardData { format: f })
                ==> f == format
            &&& step != ClipboardStep::Call(ClipboardCall::EmptyClipboard)
            &&& !(step matches ClipboardStep::Call(ClipboardCall::GlobalAlloc { .. }))
            &&& !(step matches ClipboardStep::Call(ClipboardCall::CopyToGlobal { .. }))
            &&& !(step matches ClipboardStep::Call(ClipboardCall::SetClipboardData { .. }))
        }),
{
    let (next, n, step) = get_transition(stage, format, elem_size, count, reply);
    if stage == GetStage::Sizing {
        let c = reply / elem_size;
        assert(c * elem_size <= reply < (c + 1) * elem_size) by (nonlinear_arith)
            requires
                elem_size > 0,
                c == reply / elem_size,
        ;
    }
}

} // verus!

verus! {

/// The steps a placing transfer answers when told `replies` in turn.
pub open spec fn set_steps(stage: SetStage, bytes: usize, format: u32, replies: Seq<usize>) -> Seq<
    ClipboardStep,
>
    decreases replies.len(),
{
    if replies.len() == 0 {
        seq![]
    } else {
        let (next, step) = set_transition(stage, bytes, format, replies[0]);
        seq![step] + set_steps(next, bytes, format, replies.drop_first())
    }
}

/// The steps a reading transfer answers when told `replies` in turn.
pub open spec fn get_steps(
    stage: GetStage,
    format: u32,
    elem_size: usize,
    count: usize,
    replies: Seq<usize>,
) -> Seq<ClipboardStep>
    decreases replies.len(),
{
    if replies.len() == 0 {
        seq![]
    } else {
        let (next, n, step) = get_transition(stage, format, elem_size, count, replies[0]);
        seq![step] + get_steps(next, format, elem_size, n, replies.drop_first())
    }
}

/// When every call succeeds, placing data on the clipboard makes exactly
/// these calls in this order: open, empty, allocate the transfer's bytes as
/// movable memory, lock, copy the bytes in, unlock, register the data in
/// the transfer's format, close; and then reports success.
pub proof fn lemma_set_clipboard_call_order(bytes: usize, format: u32, replies: Seq<usize>)
    requires
        replies.len() == 9,
        forall|k: int| 1 <= k < 9 ==> #[trigger] replies[k] != 0,
    ensures
        set_steps(SetStage::Idle, bytes, format, replies) == seq![
            ClipboardStep::Call(ClipboardCall::OpenClipboard),
            ClipboardStep::Call(ClipboardCall::EmptyClipboard),
            ClipboardStep::Call(ClipboardCall::GlobalAlloc { flags: 0x2, bytes }),
            ClipboardStep::Call(ClipboardCall::GlobalLock),
            ClipboardStep::Call(ClipboardCall::CopyToGlobal { bytes }),
            ClipboardStep::Call(ClipboardCall::GlobalUnlock),
            ClipboardStep::Call(ClipboardCall::SetClipboardData { format }),
            ClipboardStep::Call(ClipboardCall::CloseClipboard),
            ClipboardStep::Finish(true),
        ],
{
    let r = replies;
    assert(r[1] != 0 && r[2] != 0 && r[3] != 0 && r[4] != 0 && r[5] != 0 && r[6] != 0 && r[7]
        != 0 && r[8] != 0);
    reveal_with_fuel(set_steps, 10);
    assert(r.drop_first() =~= r.subrange(1, 9));
    assert(r.subrange(1, 9).drop_first() =~= r.subrange(2, 9));
    assert(r.subrange(2, 9).drop_first() =~= r.subrange(3, 9));
    assert(r.subrange(3, 9).drop_first() =~= r.subrange(4, 9));
    assert(r.subrange(4, 9).drop_first() =~= r.subrange(5, 9));
    assert(r.subrange(5, 9).drop_first() =~= r.subrange(6, 9));
    assert(r.subrange(6, 9).drop_first() =~= r.subrange(7, 9));
    assert(r.subrange(7, 9).drop_first() =~= r.subrange(8, 9));
    assert(r.subrange(8, 9).drop_first() =~= r.subrange(9, 9));
    assert(set_steps(SetStage::Idle, bytes, format, r) =~= seq![
        ClipboardStep::Call(ClipboardCall::OpenClipboard),
        ClipboardStep::Call(ClipboardCall::EmptyClipboard),
        ClipboardStep::Call(ClipboardCall::GlobalAlloc { flags: 0x2, bytes }),
        ClipboardStep::Call(ClipboardCall::GlobalLock),
        ClipboardStep::Call(ClipboardCall::CopyToGlobal { bytes }),
        ClipboardStep::Call(ClipboardCall::GlobalUnlock),
        ClipboardStep::Call(ClipboardCall::SetClipboardData { format }),
        ClipboardStep::Call(ClipboardCall::CloseClipboard),
        ClipboardStep::Finish(true),
    ]);
}

/// When every call succeeds and the data holds at least one whole element,
/// reading the clipboard makes exactly these calls in this order: open, get
/// the data in the transfer's format, lock it, ask its size, copy out the
/// size divided by the element size elements, unlock, close; and then
/// reports success.
pub proof fn lemma_get_clipboard_call_order(format: u32, elem_size: usize, replies: Seq<usize>)
    requires
        elem_size > 0,
        replies.len() == 8,
        forall|k: int| 1 <= k < 8 ==> #[trigger] replies[k] != 0,
        replies[4] >= elem_size,
    ensures
        get_steps(GetStage::Idle, format, elem_size, 0, replies) == seq![
            ClipboardStep::Call(ClipboardCall::OpenClipboard),
            ClipboardStep::Call(ClipboardCall::GetClipboardData { format }),
            ClipboardStep::Call(ClipboardCall::GlobalLock),
            ClipboardStep::Call(ClipboardCall::GlobalSize),
            ClipboardStep::Call(ClipboardCall::CopyFromGlobal { count: (replies[4] / elem_size) as usize }),
            ClipboardStep::Call(ClipboardCall::GlobalUnlock),
            ClipboardStep::Call(ClipboardCall::CloseClipboard),
            ClipboardStep::Finish(true),
        ],
{
    let r = replies;
    assert(r[1] != 0 && r[2] != 0 && r[3] != 0 && r[4] != 0 && r[5] != 0 && r[6] != 0 && r[7]
        != 0);
    assert(r[4] / elem_size >= 1) by (nonlinear_arith)
        requires
            r[4] >= elem_size,
            elem_size > 0,
    ;
    reveal_with_fuel(get_steps, 9);
    assert(r.drop_first() =~= r.subrange(1, 8));
    assert(r.subrange(1, 8).drop_first() =~= r.subrange(2, 8));
    assert(r.subrange(2, 8).drop_first() =~= r.subrange(3, 8));
    assert(r.subrange(3, 8).drop_first() =~= r.subrange(4, 8));
    assert(r.subrange(4, 8).drop_first() =~= r.subrange(5, 8));
    assert(r.subrange(5, 8).drop_first() =~= r.subrange(6, 8));
    assert(r.subrange(6, 8).drop_first() =~= r.subrange(7, 8));
    assert(r.subrange(7, 8).drop_first() =~= r.subrange(8, 8));
    assert(get_steps(GetStage::Idle, format, elem_size, 0, r) =~= seq![
        ClipboardStep::Call(ClipboardCall::OpenClipboard),
        ClipboardStep::Call(ClipboardCall::GetClipboardData { format }),
        ClipboardStep::Call(ClipboardCall::GlobalLock),
        ClipboardStep::Call(ClipboardCall::GlobalSize),
        ClipboardStep::Call(ClipboardCall::CopyFromGlobal { count: (r[4] / elem_size) as usize }),
        ClipboardStep::Call(ClipboardCall::GlobalUnlock),
        ClipboardStep::Call(ClipboardCall::CloseClipboard),
        ClipboardStep::Finish(true),
    ]);
}

} // verus!

//! Taking over the terminal and giving it back.

use vstd::prelude::*;

verus! {

/// The steps by which the terminal is taken over, in this order.
#[derive(Clone, Copy, Debug, PartialEq, Eq, Structural)]
pub enum SetupStep {
    EnableRawMode,
    SavePosition,
    OpenTerminal,
    CaptureMouse,
}

/// The steps by which the terminal is given back.
#[derive(Clone, Copy, Debug, PartialEq, Eq, Structural)]
pub enum CleanupStep {
    ReleaseMouse,
    Clear,
    RestorePosition,
    ShowCursor,
    DisableRawMode,
}

/// What has been taken over and must be given back.
#[derive(Clone, Copy, Debug, PartialEq, Eq, Structural)]
pub struct Session {
    pub mouse_capture: bool,
    pub raw_mode: bool,
    pub cleaned: bool,
}

/// The steps that give back what `s` holds.
pub open spec fn cleanup_steps(s: Session) -> Seq<CleanupStep> {
    if s.cleaned {
        Seq::empty()
    } else {
        (if s.mouse_capture {
            seq![CleanupStep::ReleaseMouse]
        } else {
            Seq::empty()
        }) + seq![CleanupStep::Clear, CleanupStep::RestorePosition, CleanupStep::ShowCursor] + (
        if s.raw_mode {
            seq![CleanupStep::DisableRawMode]
        } else {
            Seq::empty()
        })
    }
}

/// A session once it has been given back.
pub open spec fn given_back(s: Session) -> Session {
    if s.cleaned {
        s
    } else {
        Session { mouse_capture: false, raw_mode: false, cleaned: true }
    }
}

/// A session when the terminal has been opened and the mouse has not been captured
/// yet.
pub open spec fn just_opened() -> Session {
    Session { mouse_capture: false, raw_mode: true, cleaned: false }
}

/// The steps that undo what was done before a step of the setup failed.
pub open spec fn undo_steps(failed: SetupStep) -> Seq<CleanupStep> {
    match failed {
        SetupStep::EnableRawMode => Seq::empty(),
        SetupStep::SavePosition => seq![CleanupStep::DisableRawMode],
        SetupStep::OpenTerminal => seq![
            CleanupStep::RestorePosition,
            CleanupStep::DisableRawMode,
        ],
        SetupStep::CaptureMouse => cleanup_steps(just_opened()),
    }
}

/// The steps that undo what was done before a step of the setup failed.
pub fn undo_setup(failed: SetupStep) -> (r: Vec<CleanupStep>)
    ensures
        r@ == undo_steps(failed),
{
    let r = match failed {
        SetupStep::EnableRawMode => Vec::new(),
        SetupStep::SavePosition => vec![CleanupStep::DisableRawMode],
        SetupStep::OpenTerminal => vec![CleanupStep::RestorePosition, CleanupStep::DisableRawMode],
        SetupStep::CaptureMouse => {
            let mut session = Session::opened();
            session.cleanup()
        },
    };
    assert(r@ =~= undo_steps(failed));
    r
}

/// What to do next while the terminal is taken over.
pub enum SetupAction<E> {
    /// Take this step.
    Perform(SetupStep),
    /// The terminal is taken over.
    Ready(Session),
    /// Take the steps that undo what was done, whatever becomes of each, and report
    /// this error.
    Fail(E, Vec<CleanupStep>),
}

/// The steps by which the terminal is taken over, one after the other.
pub open spec fn setup_steps() -> Seq<SetupStep> {
    seq![
        SetupStep::EnableRawMode,
        SetupStep::SavePosition,
        SetupStep::OpenTerminal,
        SetupStep::CaptureMouse,
    ]
}

/// The step that follows `step`, if one does.
pub open spec fn next_step(step: SetupStep) -> Option<SetupStep> {
    match step {
        SetupStep::EnableRawMode => Some(SetupStep::SavePosition),
        SetupStep::SavePosition => Some(SetupStep::OpenTerminal),
        SetupStep::OpenTerminal => Some(SetupStep::CaptureMouse),
        SetupStep::CaptureMouse => None,
    }
}

/// A session when the terminal is taken over.
pub open spec fn all_taken() -> Session {
    Session { mouse_capture: true, ..just_opened() }
}

/// The step that the setup begins with.
pub fn first_setup_step() -> (r: SetupStep)
    ensures
        r == setup_steps()[0],
{
    SetupStep::EnableRawMode
}

/// Whether `action` is what follows after `step` has been tried with `outcome`.
pub open spec fn follows<E>(
    step: SetupStep,
    outcome: Result<(), E>,
    action: SetupAction<E>,
) -> bool {
    match outcome {
        Ok(_) => match next_step(step) {
            Some(next) => action == SetupAction::<E>::Perform(next),
            None => action == SetupAction::<E>::Ready(all_taken()),
        },
        Err(error) => action matches SetupAction::Fail(reported, steps) && reported == error
            && steps@ == undo_steps(step),
    }
}

/// What to do after `step` of the setup has been tried with `outcome`: go on where
/// it succeeded, and undo what was done and report its error where it failed.
pub fn after_setup_step<E>(step: SetupStep, outcome: Result<(), E>) -> (r: SetupAction<E>)
    ensures
        follows(step, outcome, r),
{
    match outcome {
        Err(error) => SetupAction::Fail(error, undo_setup(step)),
        Ok(_) => match step {
            SetupStep::EnableRawMode => SetupAction::Perform(SetupStep::SavePosition),
            SetupStep::SavePosition => SetupAction::Perform(SetupStep::OpenTerminal),
            SetupStep::OpenTerminal => SetupAction::Perform(SetupStep::CaptureMouse),
            SetupStep::CaptureMouse => {
                let mut session = Session::opened();
                session.mouse_captured();
                SetupAction::Ready(session)
            },
        },
    }
}

impl Session {
    /// A session when the terminal has been opened and the mouse has not been
    /// captured yet.
    pub fn opened() -> (r: Self)
        ensures
            r == just_opened(),
    {
        Session { mouse_capture: false, raw_mode: true, cleaned: false }
    }

    /// Notes that the mouse has been captured.
    pub fn mouse_captured(&mut self)
        ensures
            *final(self) == (Session { mouse_capture: true, ..*old(self) }),
    {
        self.mouse_capture = true;
    }

    /// The steps that give the terminal back. All of them are to be tried, also
    /// where one fails; asked again, there are none.
    pub fn cleanup(&mut self) -> (r: Vec<CleanupStep>)
        ensures
            r@ == cleanup_steps(*old(self)),
            *final(self) == given_back(*old(self)),
    {
        let mut r: Vec<CleanupStep> = Vec::new();
        if self.cleaned {
            return r;
        }
        if self.mouse_capture {
            r.push(CleanupStep::ReleaseMouse);
            self.mouse_capture = false;
        }
        r.push(CleanupStep::Clear);
        r.push(CleanupStep::RestorePosition);
        r.push(CleanupStep::ShowCursor);
        if self.raw_mode {
            r.push(CleanupStep::DisableRawMode);
            self.raw_mode = false;
        }
        self.cleaned = true;
        assert(r@ =~= cleanup_steps(*old(self)));
        r
    }
}

/// Whether `first` is the place of the first of the steps that failed, if any did.
pub open spec fn is_first_failure(first: Option<usize>, succeeded: Seq<bool>) -> bool {
    &&& first is None <==> forall|i: int| 0 <= i < succeeded.len() ==> #[trigger] succeeded[i]
    &&& first matches Some(n) ==> n < succeeded.len() && !succeeded[n as int] && forall|i: int|
        0 <= i < n ==> #[trigger] succeeded[i]
}

/// Which of the steps that were tried failed first, if any did: its error is the
/// one to report.
pub fn first_failure(succeeded: &[bool]) -> (r: Option<usize>)
    ensures
        is_first_failure(r, succeeded@),
{
    let mut i: usize = 0;
    while i < succeeded.len()
        invariant
            i <= succeeded.len(),
            forall|k: int| 0 <= k < i ==> #[trigger] succeeded@[k],
        decreases succeeded.len() - i,
    {
        if !succeeded[i] {
            return Some(i);
        }
        i += 1;
    }
    None
}

/// Giving the terminal back a second time does nothing.
pub proof fn cleanup_happens_once(s: Session)
    ensures
        cleanup_steps(given_back(s)).len() == 0,
        given_back(given_back(s)) == given_back(s),
{
}

/// A session that is given back holds nothing, and the steps release the mouse and
/// end raw mode exactly if they were taken.
pub proof fn cleanup_gives_everything_back(s: Session)
    requires
        !s.cleaned,
    ensures
        !given_back(s).mouse_capture && !given_back(s).raw_mode,
        cleanup_steps(s).contains(CleanupStep::ReleaseMouse) <==> s.mouse_capture,
        cleanup_steps(s).contains(CleanupStep::DisableRawMode) <==> s.raw_mode,
        cleanup_steps(s).contains(CleanupStep::RestorePosition),
        cleanup_steps(s).contains(CleanupStep::ShowCursor),
{
    let steps = cleanup_steps(s);
    let n: int = if s.mouse_capture {
        1
    } else {
        0
    };
    assert(s.mouse_capture ==> steps[0] == CleanupStep::ReleaseMouse);
    assert(steps[n + 1] == CleanupStep::RestorePosition);
    assert(steps[n + 2] == CleanupStep::ShowCursor);
    assert(s.raw_mode ==> steps[n + 3] == CleanupStep::DisableRawMode);
}

/// The setup takes all of its steps in their order, each once, and is ready after
/// the last.
pub proof fn setup_goes_in_order(n: int)
    requires
        0 <= n < setup_steps().len(),
    ensures
        next_step(setup_steps()[n]) == (if n + 1 < setup_steps().len() {
            Some(setup_steps()[n + 1])
        } else {
            None
        }),
        forall|step: SetupStep| #[trigger] setup_steps().contains(step),
{
    let steps = setup_steps();
    assert(steps[0] == SetupStep::EnableRawMode);
    assert(steps[1] == SetupStep::SavePosition);
    assert(steps[2] == SetupStep::OpenTerminal);
    assert(steps[3] == SetupStep::CaptureMouse);
    assert forall|step: SetupStep| #[trigger] steps.contains(step) by {
        assert(step == steps[0] || step == steps[1] || step == steps[2] || step == steps[3]);
    }
}

/// Whichever step of the setup fails, raw mode is ended exactly if it was entered,
/// the position is restored exactly if it was saved, and the mouse, which was not
/// captured, is not released.
pub proof fn failed_setup_gives_back_what_it_took(failed: SetupStep)
    ensures
        undo_steps(failed).contains(CleanupStep::DisableRawMode) <==> failed
            != SetupStep::EnableRawMode,
        undo_steps(failed).contains(CleanupStep::RestorePosition) <==> failed
            == SetupStep::OpenTerminal || failed == SetupStep::CaptureMouse,
        !undo_steps(failed).contains(CleanupStep::ReleaseMouse),
{
    let steps = undo_steps(failed);
    assert(failed != SetupStep::EnableRawMode ==> steps[steps.len() - 1]
        == CleanupStep::DisableRawMode);
    assert(failed == SetupStep::OpenTerminal ==> steps[0] == CleanupStep::RestorePosition);
    assert(failed == SetupStep::CaptureMouse ==> steps[1] == CleanupStep::RestorePosition);
}

/// The terminal is taken over in this order: raw mode, the saved position, the
/// terminal, the mouse. After the last step all of it is held.
pub proof fn setup_order_is_spelled_out()
    ensures
        setup_steps().len() == 4,
        setup_steps()[0] is EnableRawMode,
        next_step(SetupStep::EnableRawMode) == Some(SetupStep::SavePosition),
        next_step(SetupStep::SavePosition) == Some(SetupStep::OpenTerminal),
        next_step(SetupStep::OpenTerminal) == Some(SetupStep::CaptureMouse),
        next_step(SetupStep::CaptureMouse) is None,
        all_taken().mouse_capture && all_taken().raw_mode && !all_taken().cleaned,
        just_opened().raw_mode && !just_opened().mouse_capture && !just_opened().cleaned,
{
}

/// The terminal is given back in this order: the mouse, the screen, the position, the
/// cursor, raw mode; what was not taken is left out, and nothing else. Once given back,
/// nothing is held.
pub proof fn cleanup_order_is_spelled_out(s: Session)
    requires
        !s.cleaned,
    ensures
        s.mouse_capture && s.raw_mode ==> cleanup_steps(s) == seq![
            CleanupStep::ReleaseMouse,
            CleanupStep::Clear,
            CleanupStep::RestorePosition,
            CleanupStep::ShowCursor,
            CleanupStep::DisableRawMode,
        ],
        s.mouse_capture && !s.raw_mode ==> cleanup_steps(s) == seq![
            CleanupStep::ReleaseMouse,
            CleanupStep::Clear,
            CleanupStep::RestorePosition,
            CleanupStep::ShowCursor,
        ],
        !s.mouse_capture && s.raw_mode ==> cleanup_steps(s) == seq![
            CleanupStep::Clear,
            CleanupStep::RestorePosition,
            CleanupStep::ShowCursor,
            CleanupStep::DisableRawMode,
        ],
        !s.mouse_capture && !s.raw_mode ==> cleanup_steps(s) == seq![
            CleanupStep::Clear,
            CleanupStep::RestorePosition,
            CleanupStep::ShowCursor,
        ],
        given_back(s).cleaned && !given_back(s).mouse_capture && !given_back(s).raw_mode,
{
    let steps = cleanup_steps(s);
    if s.mouse_capture && s.raw_mode {
        assert(steps =~= seq![
            CleanupStep::ReleaseMouse,
            CleanupStep::Clear,
            CleanupStep::RestorePosition,
            CleanupStep::ShowCursor,
            CleanupStep::DisableRawMode,
        ]);
    }
}

/// A setup that fails is undone in the reverse order of what was done: nothing if raw
/// mode could not be entered, raw mode if the position could not be saved, the position
/// and raw mode if the terminal could not be opened, and all that an open terminal holds
/// if the mouse could not be captured.
pub proof fn undoing_is_spelled_out()
    ensures
        undo_steps(SetupStep::EnableRawMode).len() == 0,
        undo_steps(SetupStep::SavePosition) == seq![CleanupStep::DisableRawMode],
        undo_steps(SetupStep::OpenTerminal) == seq![
            CleanupStep::RestorePosition,
            CleanupStep::DisableRawMode,
        ],
        undo_steps(SetupStep::CaptureMouse) == seq![
            CleanupStep::Clear,
            CleanupStep::RestorePosition,
            CleanupStep::ShowCursor,
            CleanupStep::DisableRawMode,
        ],
{
    cleanup_order_is_spelled_out(just_opened());
}

/// A step that fails ends the setup with its own error and with what undoes the steps
/// before it; one that succeeds leads on to the next, and the last one to a terminal
/// that is taken over.
pub proof fn failed_step_is_reported<E>(
    step: SetupStep,
    outcome: Result<(), E>,
    action: SetupAction<E>,
)
    requires
        follows(step, outcome, action),
    ensures
        outcome matches Err(error) ==> action is Fail && action->Fail_0 == error && action->Fail_1@
            == undo_steps(step),
        outcome is Ok && step != SetupStep::CaptureMouse ==> action is Perform && Some(
            action->Perform_0,
        ) == next_step(step),
        outcome is Ok && step == SetupStep::CaptureMouse ==> action is Ready
            && action->Ready_0.mouse_capture && action->Ready_0.raw_mode
            && !action->Ready_0.cleaned,
{
}

/// The failure that is reported is the first: if step `n` failed and none before it did,
/// it is that one; if none failed, none is.
pub proof fn first_failure_is_reported(first: Option<usize>, succeeded: Seq<bool>, n: usize)
    requires
        is_first_failure(first, succeeded),
    ensures
        n < succeeded.len() && !succeeded[n as int] && (forall|i: int|
            0 <= i < n ==> #[trigger] succeeded[i]) ==> first == Some(n),
        (forall|i: int| 0 <= i < succeeded.len() ==> #[trigger] succeeded[i]) ==> first is None,
        first is Some ==> first->0 < succeeded.len() && !succeeded[first->0 as int],
{
}

} // verus!

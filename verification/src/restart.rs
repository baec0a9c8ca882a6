//! Restarting kanshi: the order in which the ways of restarting it are
//! tried, and the user service unit that points kanshi at the managed
//! configuration file.

use vstd::prelude::*;

use crate::text;

verus! {

/// What to do next to restart kanshi.
#[derive(Clone, Copy, Debug, PartialEq, Eq, Structural)]
pub enum RestartAction {
    /// `systemctl --user restart kanshi.service`
    RestartServiceUnit,
    /// `systemctl --user restart kanshi`
    RestartKanshiUnit,
    /// write the user service unit and reload systemd (its outcome does not
    /// matter)
    EnsureUserService,
    /// stop any running kanshi and spawn a new one
    Fallback,
    /// stop: kanshi was restarted (`true`) or every way failed (`false`)
    Finish(bool),
}

/// How far restarting has got: which action was performed last.
#[derive(Clone, Copy, Debug, PartialEq, Eq, Structural)]
pub enum RestartStage {
    Begin,
    TriedService,
    EnsuredService,
    TriedKanshiUnit,
    RetriedService,
    FellBack,
    Done,
}

/// The next stage and action, given the stage and whether the action last
/// performed succeeded: restart `kanshi.service`; failing that, write the
/// user service and restart the unit `kanshi`, then `kanshi.service` again;
/// failing both, fall back to spawning kanshi, whose outcome is the result.
pub open spec fn restart_step(stage: RestartStage, ok: bool) -> (RestartStage, RestartAction) {
    match stage {
        RestartStage::Begin => (RestartStage::TriedService, RestartAction::RestartServiceUnit),
        RestartStage::TriedService => if ok {
            (RestartStage::Done, RestartAction::Finish(true))
        } else {
            (RestartStage::EnsuredService, RestartAction::EnsureUserService)
        },
        RestartStage::EnsuredService => (
            RestartStage::TriedKanshiUnit,
            RestartAction::RestartKanshiUnit,
        ),
        RestartStage::TriedKanshiUnit => if ok {
            (RestartStage::Done, RestartAction::Finish(true))
        } else {
            (RestartStage::RetriedService, RestartAction::RestartServiceUnit)
        },
        RestartStage::RetriedService => if ok {
            (RestartStage::Done, RestartAction::Finish(true))
        } else {
            (RestartStage::FellBack, RestartAction::Fallback)
        },
        RestartStage::FellBack => (RestartStage::Done, RestartAction::Finish(ok)),
        RestartStage::Done => (RestartStage::Done, RestartAction::Finish(ok)),
    }
}

/// One decision of restarting kanshi (see `restart_step`): the caller
/// performs the action returned and reports whether it succeeded with the
/// next call, until the action is `Finish`.
pub fn restart_kanshi(stage: RestartStage, ok: bool) -> (r: (RestartStage, RestartAction))
    ensures
        r == restart_step(stage, ok),
{
    match stage {
        RestartStage::Begin => (RestartStage::TriedService, RestartAction::RestartServiceUnit),
        RestartStage::TriedService => if ok {
            (RestartStage::Done, RestartAction::Finish(true))
        } else {
            (RestartStage::EnsuredService, RestartAction::EnsureUserService)
        },
        RestartStage::EnsuredService => (
            RestartStage::TriedKanshiUnit,
            RestartAction::RestartKanshiUnit,
        ),
        RestartStage::TriedKanshiUnit => if ok {
            (RestartStage::Done, RestartAction::Finish(true))
        } else {
            (RestartStage::RetriedService, RestartAction::RestartServiceUnit)
        },
        RestartStage::RetriedService => if ok {
            (RestartStage::Done, RestartAction::Finish(true))
        } else {
            (RestartStage::FellBack, RestartAction::Fallback)
        },
        RestartStage::FellBack => (RestartStage::Done, RestartAction::Finish(ok)),
        RestartStage::Done => (RestartStage::Done, RestartAction::Finish(ok)),
    }
}

/// The user service unit that runs kanshi on the configuration file `cfg`.
pub open spec fn service_unit_text(cfg: Seq<char>) -> Seq<char> {
    "[Unit]\nDescription=Kanshi output profile daemon (managed by KanshiUI)\nAfter=graphical-session.target\n\n[Service]\nType=simple\nExecStart=kanshi --config "@
        + cfg
        + "\nRestart=on-failure\n\n[Install]\nWantedBy=default.target\n"@
}

/// The user service unit that runs kanshi on the configuration file
/// `cfg_path` (see `service_unit_text`).
pub fn kanshi_service_unit(cfg_path: &str) -> (s: String)
    ensures
        s@ == service_unit_text(cfg_path@),
{
    let mut out: Vec<char> = Vec::new();
    text::push_str(
        &mut out,
        "[Unit]\nDescription=Kanshi output profile daemon (managed by KanshiUI)\nAfter=graphical-session.target\n\n[Service]\nType=simple\nExecStart=kanshi --config ",
    );
    text::push_str(&mut out, cfg_path);
    text::push_str(&mut out, "\nRestart=on-failure\n\n[Install]\nWantedBy=default.target\n");
    text::string_of(&out)
}

} // verus!

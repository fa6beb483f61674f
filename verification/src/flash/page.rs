//! The page that runs flash scripts: a script is validated, confirmed and run.

use vstd::prelude::*;

use crate::flash::run::{port_models, PortChoice};
use crate::flash::script;
use crate::jobs::operation::JobOp;
use crate::oeminfo::payload::text_of;
use crate::text;

verus! {

/// The job that the page waits for.
#[derive(Debug, Clone, Copy, PartialEq, Eq, Structural)]
pub enum ScriptJob {
    Validate,
    Run,
}

#[derive(Debug)]
pub struct FlashPage {
    pub script: String,
    pub validated: bool,
    pub step_count: usize,
    pub confirm_open: bool,
    pub selected_port: String,
    pub run_requested: bool,
    pub pending: Option<ScriptJob>,
}

/// The page behind a result: what it holds, and whether the result is announced.
pub open spec fn polled(page: FlashPage, ok: bool, steps: usize) -> (FlashPage, bool) {
    let idle = FlashPage { pending: None, ..page };
    if page.pending == Some(ScriptJob::Run) {
        (idle, true)
    } else if !ok {
        (FlashPage { run_requested: false, validated: false, ..idle }, true)
    } else {
        (
            FlashPage {
                validated: true,
                step_count: steps,
                run_requested: false,
                confirm_open: page.confirm_open || page.run_requested,
                ..idle
            },
            false,
        )
    }
}

impl Default for FlashPage {
    fn default() -> (page: FlashPage)
        ensures
            page.script@.len() == 0,
            !page.validated,
            page.step_count == 0,
            !page.confirm_open,
            page.selected_port@.len() == 0,
            !page.run_requested,
            page.pending is None,
    {
        FlashPage {
            script: String::new(),
            validated: false,
            step_count: 0,
            confirm_open: false,
            selected_port: String::new(),
            run_requested: false,
            pending: None,
        }
    }
}

impl FlashPage {
    /// Notes that the path of the script was edited.
    pub fn script_edited(&mut self)
        ensures
            *final(self) == (FlashPage { validated: false, run_requested: false, ..*old(self) }),
    {
        self.validated = false;
        self.run_requested = false;
    }

    /// Chooses a script, which is validated at once unless a job runs.
    pub fn set_script(&mut self, path: String, running: bool) -> (job: Option<JobOp>)
        ensures
            job is Some == !running,
            job matches Some(op) ==> (op matches JobOp::FlashScriptValidate { path: asked }
                && asked@ == path@),
            *final(self) == (FlashPage {
                script: path,
                validated: false,
                pending: if running {
                    old(self).pending
                } else {
                    Some(ScriptJob::Validate)
                },
                ..*old(self)
            }),
    {
        self.validated = false;
        let asked = path.clone();
        self.script = path;
        if running {
            return None;
        }
        self.pending = Some(ScriptJob::Validate);
        Some(JobOp::FlashScriptValidate { path: asked })
    }

    /// Asks for a run: a validated script is up for confirmation, another one is
    /// validated first.
    pub fn press_run(&mut self, running: bool) -> (job: Option<JobOp>)
        ensures
            ({
                let ready = !running && !script::is_blank(old(self).script@);
                match job {
                    Some(op) => {
                        &&& ready && !old(self).validated
                        &&& op matches JobOp::FlashScriptValidate { path }
                        &&& path@ == text::trimmed(old(self).script@)
                        &&& *final(self) == (FlashPage {
                            run_requested: true,
                            pending: Some(ScriptJob::Validate),
                            ..*old(self)
                        })
                    },
                    None => {
                        &&& !ready || old(self).validated
                        &&& *final(self) == (FlashPage {
                            confirm_open: old(self).confirm_open || ready,
                            ..*old(self)
                        })
                    },
                }
            }),
    {
        let chars = text::chars_of(self.script.as_str());
        let path = text::trim(chars.as_slice());
        if running || path.len() == 0 {
            return None;
        }
        if self.validated {
            self.confirm_open = true;
            return None;
        }
        self.run_requested = true;
        self.pending = Some(ScriptJob::Validate);
        Some(JobOp::FlashScriptValidate { path: text::string_of(path) })
    }

    /// Runs the script that is up for confirmation.
    pub fn confirm(&mut self) -> (op: JobOp)
        ensures
            op matches JobOp::FlashScriptRun { path } && path@ == text::trimmed(old(self).script@),
            *final(self) == (FlashPage {
                pending: Some(ScriptJob::Run),
                confirm_open: false,
                ..*old(self)
            }),
    {
        let chars = text::chars_of(self.script.as_str());
        self.pending = Some(ScriptJob::Run);
        self.confirm_open = false;
        JobOp::FlashScriptRun { path: text::string_of(text::trim(chars.as_slice())) }
    }

    /// Drops the confirmation.
    pub fn decline(&mut self)
        ensures
            *final(self) == (FlashPage { confirm_open: false, ..*old(self) }),
    {
        self.confirm_open = false;
    }

    /// Takes the result of the job that the page waits for, with the number of
    /// steps that it counted, and tells whether to announce it.
    pub fn poll_result(&mut self, ok: bool, steps: usize) -> (announce: bool)
        ensures
            (*final(self), announce) == polled(*old(self), ok, steps),
    {
        let pending = self.pending;
        self.pending = None;
        match pending {
            Some(ScriptJob::Run) => true,
            _ => {
                if !ok {
                    self.run_requested = false;
                    self.validated = false;
                    return true;
                }
                self.validated = true;
                self.step_count = steps;
                if self.run_requested {
                    self.run_requested = false;
                    self.confirm_open = true;
                }
                false
            },
        }
    }

    /// Proposes the first of several ports, unless one is chosen.
    pub fn propose_port(&mut self, ports: &Vec<PortChoice>)
        ensures
            ({
                let offered = port_models(ports@);
                let proposes = script::is_blank(old(self).selected_port@) && offered.len() > 0;
                &&& final(self).selected_port@ == if proposes {
                    offered[0].name
                } else {
                    old(self).selected_port@
                }
                &&& *final(self) == (FlashPage {
                    selected_port: final(self).selected_port,
                    ..*old(self)
                })
            }),
    {
        let chars = text::chars_of(self.selected_port.as_str());
        assert(port_models(ports@).len() == ports@.len());
        if script::blank(chars.as_slice()) && ports.len() > 0 {
            assert(port_models(ports@)[0] == ports@[0]@);
            self.selected_port = ports[0].name.clone();
        }
    }

    /// The port that is chosen, if one is.
    pub fn chosen_port(&self) -> (port: Option<String>)
        ensures
            text_of(port) == if script::is_blank(self.selected_port@) {
                None
            } else {
                Some(text::trimmed(self.selected_port@))
            },
    {
        let chars = text::chars_of(self.selected_port.as_str());
        let port = text::trim(chars.as_slice());
        if port.len() == 0 {
            return None;
        }
        Some(text::string_of(port))
    }
}

/// Where a run is asked for, a script that turns out valid is up for
/// confirmation, and one that does not is not.
pub proof fn law_runs_are_validated_first(page: FlashPage, ok: bool, steps: usize)
    requires
        page.pending == Some(ScriptJob::Validate),
        !page.confirm_open,
    ensures
        ({
            let after = polled(page, ok, steps).0;
            &&& after.confirm_open == (ok && page.run_requested)
            &&& after.confirm_open ==> after.validated && after.step_count == steps
            &&& !after.run_requested
        }),
{
}

/// A run that ends leaves the script as it was and is announced; a validation that
/// went well counts the steps and is announced by nothing, and one that did not is.
pub proof fn law_results_settle_the_page(page: FlashPage, ok: bool, steps: usize)
    ensures
        ({
            let (after, announce) = polled(page, ok, steps);
            &&& after.pending is None
            &&& after.script == page.script && after.selected_port == page.selected_port
            &&& page.pending == Some(ScriptJob::Run) ==> announce && after == (FlashPage {
                pending: None,
                ..page
            })
            &&& page.pending != Some(ScriptJob::Run) ==> after.validated == ok && announce == !ok
                && !after.run_requested
            &&& page.pending != Some(ScriptJob::Run) && ok ==> after.step_count == steps
            &&& page.pending != Some(ScriptJob::Run) && !ok ==> after.confirm_open
                == page.confirm_open
        }),
{
}

} // verus!

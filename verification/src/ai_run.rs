//! The AI pass as a state machine. The app performs the work (the request,
//! the timers, anchoring the results in the document) and hands back what
//! happened; these steps decide what the margin says and whether a result
//! lands. Every step that starts, cancels or supersedes a run moves the
//! generation on, and a result carries the generation it was asked under:
//! one from an older generation is dropped.

use vstd::prelude::*;
use crate::ai::{AiFailure, AiStatus, failure_detail, failure_title, host_spec};
use crate::chars::string_from_chars;
use crate::format::{decimal, push_decimal};

verus! {

/// A pass that finished during a typing burst, parked until a lull.
pub struct DeferredPass<P> {
    pub payload: P,
    pub generation: u64,
}

/// The AI surface's state.
pub struct AiRun<P> {
    /// Bumped by every start, cancel and supersession.
    pub generation: u64,
    /// What the margin card says, if anything.
    pub status: Option<AiStatus>,
    /// The pass asked for while no provider was configured (`true` for a
    /// believing pass).
    pub pending_pass: Option<bool>,
    /// A finished pass waiting for the writer to pause.
    pub deferred: Option<DeferredPass<P>>,
    /// Whether the last pass run was a believing one.
    pub last_pass_believing: bool,
    /// The door: diagnoses stay out of sight while drafting.
    pub drafting: bool,
}

/// What starting a pass comes to.
pub enum PassStart<P> {
    /// A pass is already running; nothing changes.
    AlreadyRunning,
    /// No provider yet: the setup card shows, and a local model may be
    /// probed for under `generation`.
    NeedsSetup { generation: u64 },
    /// The request goes out under `generation`; `landed` is a parked pass
    /// that lands first, if one was waiting.
    Started { generation: u64, landed: Option<P> },
}

/// What a finished request comes to.
pub enum ResultStep<P> {
    /// Superseded or cancelled: ignored.
    Dropped,
    /// The writer is typing: parked until a lull.
    Parked,
    /// Lands now.
    Land(P),
    /// Failed; the card says why.
    Failed,
}

/// What the lull watcher does on one tick.
pub enum LullStep<P> {
    /// Nothing is parked any more: stop watching.
    Stop,
    /// Still typing: keep watching.
    Wait,
    /// The lull came: land this (if its generation still stands) and stop.
    Land(Option<P>),
}

/// The running card's label: the kind of pass and the model.
pub open spec fn running_label_spec(believing: bool, mode: Seq<char>, model: Seq<char>) -> Seq<char> {
    (if believing {
        "believing pass"@
    } else {
        mode + " diagnosis"@
    }) + " \u{b7} "@ + model
}

/// The label of a running pass.
pub fn running_label(believing: bool, mode: &str, model: &str) -> (s: String)
    ensures
        s@ == running_label_spec(believing, mode@, model@),
{
    let head = if believing {
        String::from_str("believing pass")
    } else {
        String::from_str(mode).concat(" diagnosis")
    };
    head.concat(" \u{b7} ").concat(model)
}

/// The title of the card that reports a landed pass: what anchored, said
/// out loud even when nothing did.
pub open spec fn landed_title_spec(count: nat, kept: nat) -> Seq<char> {
    if kept == 0 && count == 0 {
        "Pass complete \u{2014} the editor found nothing to flag"@
    } else if kept == 0 {
        "Pass complete \u{2014} no quote matched the current text"@
    } else {
        decimal(kept) + " margin quer"@ + (if kept == 1 {
            "y"@
        } else {
            "ies"@
        }) + " anchored"@
    }
}

/// The detail of that card: how many diagnoses were dropped for quoting
/// text that is no longer there, when some anchored and some did not.
pub open spec fn landed_detail_spec(count: nat, kept: nat) -> Seq<char> {
    if count > kept && kept > 0 {
        decimal((count - kept) as nat) + " dropped (stale quotes)"@
    } else {
        Seq::empty()
    }
}

fn decimal_string(n: usize) -> (s: String)
    ensures
        s@ == decimal(n as nat),
{
    let mut v: Vec<char> = Vec::new();
    push_decimal(n as u64, &mut v);
    assert(v@ =~= decimal(n as nat));
    string_from_chars(&v)
}

/// The card for a landed pass of `count` diagnoses of which `kept`
/// anchored.
pub fn landed_status(count: usize, kept: usize) -> (r: AiStatus)
    ensures
        r matches AiStatus::Note { title, detail } && title@ == landed_title_spec(
            count as nat,
            kept as nat,
        ) && detail@ == landed_detail_spec(count as nat, kept as nat),
{
    let title = if kept == 0 && count == 0 {
        String::from_str("Pass complete \u{2014} the editor found nothing to flag")
    } else if kept == 0 {
        String::from_str("Pass complete \u{2014} no quote matched the current text")
    } else {
        let s = decimal_string(kept).concat(" margin quer");
        let s = if kept == 1 {
            s.concat("y")
        } else {
            s.concat("ies")
        };
        s.concat(" anchored")
    };
    let detail = if count > kept && kept > 0 {
        decimal_string(count - kept).concat(" dropped (stale quotes)")
    } else {
        String::new()
    };
    AiStatus::Note { title, detail }
}

impl<P> AiRun<P> {
    /// A fresh surface: nothing shown, nothing pending, the door closed.
    pub fn new() -> (r: Self)
        ensures
            r.generation == 0,
            r.status is None,
            r.pending_pass is None,
            r.deferred is None,
            !r.last_pass_believing,
            r.drafting,
    {
        AiRun {
            generation: 0,
            status: None,
            pending_pass: None,
            deferred: None,
            last_pass_believing: false,
            drafting: true,
        }
    }

    /// Open the door from outside the editor.
    pub fn enter_reviewing(&mut self)
        ensures
            !final(self).drafting,
            final(self).generation == old(self).generation,
            final(self).status == old(self).status,
            final(self).pending_pass == old(self).pending_pass,
            final(self).deferred == old(self).deferred,
            final(self).last_pass_believing == old(self).last_pass_believing,
    {
        self.drafting = false;
    }

    /// The parked pass, taken: it lands only if its generation still
    /// stands. Taking it twice gives nothing the second time.
    pub fn flush(&mut self) -> (r: Option<P>)
        ensures
            final(self).deferred is None,
            r == (match old(self).deferred {
                Some(d) => if d.generation == old(self).generation {
                    Some(d.payload)
                } else {
                    None
                },
                None => None,
            }),
            final(self).generation == old(self).generation,
            final(self).status == old(self).status,
            final(self).pending_pass == old(self).pending_pass,
            final(self).drafting == old(self).drafting,
            final(self).last_pass_believing == old(self).last_pass_believing,
    {
        let d = self.deferred.take();
        match d {
            None => None,
            Some(d) => {
                if d.generation != self.generation {
                    None
                } else {
                    Some(d.payload)
                }
            },
        }
    }

    /// Start a pass (`believing` or a diagnosis at depth `mode`) with
    /// `model`. While one runs, nothing happens. With no provider the pass
    /// is remembered and the setup card shows. Otherwise a parked pass
    /// lands first, the door opens, and the running card shows.
    pub fn run_pass(&mut self, believing: bool, configured: bool, mode: &str, model: &str) -> (r: PassStart<P>)
        requires
            old(self).generation < u64::MAX,
        ensures
            old(self).status matches Some(AiStatus::Running { .. }) ==> r is AlreadyRunning && *final(self) == *old(self),
            !(old(self).status matches Some(AiStatus::Running { .. })) && !configured ==> {
                &&& r == PassStart::<P>::NeedsSetup { generation: final(self).generation }
                &&& final(self).generation == old(self).generation + 1
                &&& final(self).pending_pass == Some(believing)
                &&& final(self).status == Some(AiStatus::NeedsSetup { local_model: None })
                &&& final(self).deferred == old(self).deferred
                &&& final(self).drafting == old(self).drafting
            },
            !(old(self).status matches Some(AiStatus::Running { .. })) && configured ==> {
                &&& r matches PassStart::Started { generation, landed } && generation
                    == final(self).generation && landed == (match old(self).deferred {
                    Some(d) => if d.generation == old(self).generation {
                        Some(d.payload)
                    } else {
                        None
                    },
                    None => None,
                })
                &&& final(self).generation == old(self).generation + 1
                &&& final(self).status matches Some(AiStatus::Running { label }) && label@
                    == running_label_spec(believing, mode@, model@)
                &&& final(self).deferred is None
                &&& !final(self).drafting
                &&& final(self).last_pass_believing == believing
                &&& final(self).pending_pass == old(self).pending_pass
            },
    {
        if let Some(AiStatus::Running { .. }) = &self.status {
            return PassStart::AlreadyRunning;
        }
        if !configured {
            self.pending_pass = Some(believing);
            self.generation = self.generation + 1;
            self.status = Some(AiStatus::NeedsSetup { local_model: None });
            return PassStart::NeedsSetup { generation: self.generation };
        }
        self.last_pass_believing = believing;
        let landed = self.flush();
        self.drafting = false;
        self.generation = self.generation + 1;
        self.status = Some(AiStatus::Running { label: running_label(believing, mode, model) });
        PassStart::Started { generation: self.generation, landed }
    }

    /// A request asked under `generation` finished. A stale one is dropped
    /// and changes nothing; a success lands now, or is parked while the
    /// writer types; a failure shows its card.
    pub fn on_result(
        &mut self,
        generation: u64,
        result: Result<P, AiFailure>,
        typing: bool,
        base_url: &str,
        model: &str,
    ) -> (r: ResultStep<P>)
        ensures
            generation != old(self).generation ==> r is Dropped && *final(self) == *old(self),
            generation == old(self).generation ==> match result {
                Ok(p) => if typing {
                    &&& r is Parked
                    &&& final(self).deferred == Some(DeferredPass { payload: p, generation })
                    &&& final(self).status == old(self).status
                } else {
                    &&& r == ResultStep::Land(p)
                    &&& final(self).deferred == old(self).deferred
                    &&& final(self).status == old(self).status
                },
                Err(f) => {
                    &&& r is Failed
                    &&& final(self).status matches Some(AiStatus::Error { title, detail }) && title@
                        == failure_title(f, host_spec(base_url@), model@) && detail@
                        == failure_detail(f)
                    &&& final(self).deferred == old(self).deferred
                },
            },
            final(self).generation == old(self).generation,
            final(self).pending_pass == old(self).pending_pass,
            final(self).drafting == old(self).drafting,
            final(self).last_pass_believing == old(self).last_pass_believing,
    {
        if generation != self.generation {
            return ResultStep::Dropped;
        }
        match result {
            Ok(p) => {
                if typing {
                    self.deferred = Some(DeferredPass { payload: p, generation });
                    ResultStep::Parked
                } else {
                    ResultStep::Land(p)
                }
            },
            Err(f) => {
                self.status = Some(f.into_status(base_url, model));
                ResultStep::Failed
            },
        }
    }

    /// One tick of the lull watcher.
    pub fn lull_tick(&mut self, typing: bool) -> (r: LullStep<P>)
        ensures
            old(self).deferred is None ==> r is Stop && *final(self) == *old(self),
            old(self).deferred is Some && typing ==> r is Wait && *final(self) == *old(self),
            old(self).deferred is Some && !typing ==> {
                &&& r == LullStep::Land(match old(self).deferred {
                    Some(d) => if d.generation == old(self).generation {
                        Some(d.payload)
                    } else {
                        None
                    },
                    None => None,
                })
                &&& final(self).deferred is None
            },
            final(self).generation == old(self).generation,
            final(self).status == old(self).status,
            final(self).drafting == old(self).drafting,
            final(self).last_pass_believing == old(self).last_pass_believing,
            final(self).pending_pass == old(self).pending_pass,
    {
        if self.deferred.is_none() {
            return LullStep::Stop;
        }
        if typing {
            return LullStep::Wait;
        }
        LullStep::Land(self.flush())
    }

    /// A pass landed with `kept` of its `count` diagnoses anchored: say so.
    /// Returns the generation under which the card may fade.
    pub fn landed(&mut self, count: usize, kept: usize) -> (g: u64)
        ensures
            g == final(self).generation,
            final(self).generation == old(self).generation,
            final(self).status matches Some(AiStatus::Note { title, detail }) && title@
                == landed_title_spec(count as nat, kept as nat) && detail@ == landed_detail_spec(
                count as nat,
                kept as nat,
            ),
            final(self).deferred == old(self).deferred,
            final(self).pending_pass == old(self).pending_pass,
            final(self).drafting == old(self).drafting,
            final(self).last_pass_believing == old(self).last_pass_believing,
    {
        self.status = Some(landed_status(count, kept));
        self.generation
    }

    /// The fade timer of a note shown under `generation`: the note goes if
    /// nothing has superseded it; errors and setup cards stay.
    pub fn fade(&mut self, generation: u64)
        ensures
            final(self).status == (if generation == old(self).generation && old(self).status matches Some(
                AiStatus::Note { .. },
            ) {
                None
            } else {
                old(self).status
            }),
            final(self).generation == old(self).generation,
            final(self).deferred == old(self).deferred,
            final(self).pending_pass == old(self).pending_pass,
            final(self).drafting == old(self).drafting,
            final(self).last_pass_believing == old(self).last_pass_believing,
    {
        if generation == self.generation {
            if let Some(AiStatus::Note { .. }) = &self.status {
                self.status = None;
            }
        }
    }

    /// Cancel: whatever is in flight is ignored when it lands, and nothing
    /// stays pending or parked.
    pub fn cancel(&mut self)
        requires
            old(self).generation < u64::MAX,
        ensures
            final(self).generation == old(self).generation + 1,
            final(self).status is None,
            final(self).pending_pass is None,
            final(self).deferred is None,
            final(self).drafting == old(self).drafting,
            final(self).last_pass_believing == old(self).last_pass_believing,
    {
        self.generation = self.generation + 1;
        self.status = None;
        self.pending_pass = None;
        self.deferred = None;
    }

    /// A local model answered the probe made under `generation`: the setup
    /// card offers it, if the writer is still looking at that same card.
    pub fn local_model_found(&mut self, generation: u64, model: String)
        ensures
            final(self).status == (if generation == old(self).generation && old(self).status matches Some(
                AiStatus::NeedsSetup { .. },
            ) {
                Some(AiStatus::NeedsSetup { local_model: Some(model) })
            } else {
                old(self).status
            }),
            final(self).generation == old(self).generation,
            final(self).deferred == old(self).deferred,
            final(self).pending_pass == old(self).pending_pass,
            final(self).drafting == old(self).drafting,
            final(self).last_pass_believing == old(self).last_pass_believing,
    {
        if generation == self.generation {
            if let Some(AiStatus::NeedsSetup { .. }) = &self.status {
                self.status = Some(AiStatus::NeedsSetup { local_model: Some(model) });
            }
        }
    }

    /// The config file was opened for editing: a note says what to do next.
    /// Returns the generation under which it may fade.
    pub fn opened_config(&mut self) -> (g: u64)
        requires
            old(self).generation < u64::MAX,
        ensures
            g == final(self).generation,
            final(self).generation == old(self).generation + 1,
            final(self).status matches Some(AiStatus::Note { title, detail }) && title@
                == "Opened config.toml in your editor"@ && detail@
                == "Fill [ai] base_url / api_key / model, save, and run the pass again \u{2014} Strop re-reads the file every time."@,
            final(self).deferred == old(self).deferred,
            final(self).pending_pass == old(self).pending_pass,
            final(self).drafting == old(self).drafting,
            final(self).last_pass_believing == old(self).last_pass_believing,
    {
        self.generation = self.generation + 1;
        self.status = Some(
            AiStatus::Note {
                title: String::from_str("Opened config.toml in your editor"),
                detail: String::from_str(
                    "Fill [ai] base_url / api_key / model, save, and run the pass again \u{2014} Strop re-reads the file every time.",
                ),
            },
        );
        self.generation
    }

    /// Saving the one-click local provider failed: the card says so.
    pub fn local_provider_failed(&mut self, error: String)
        ensures
            final(self).status matches Some(AiStatus::Error { title, detail }) && title@
                == "Couldn't save the local provider"@ && detail@ == error@,
            final(self).generation == old(self).generation,
            final(self).deferred == old(self).deferred,
            final(self).pending_pass == old(self).pending_pass,
            final(self).drafting == old(self).drafting,
            final(self).last_pass_believing == old(self).last_pass_believing,
    {
        self.status = Some(
            AiStatus::Error { title: String::from_str("Couldn't save the local provider"), detail: error },
        );
    }

    /// The pass to run once a provider exists: the one asked for during
    /// setup, else a diagnosis.
    pub fn take_pending(&mut self) -> (believing: bool)
        ensures
            believing == (match old(self).pending_pass {
                Some(b) => b,
                None => false,
            }),
            final(self).pending_pass is None,
            final(self).generation == old(self).generation,
            final(self).status == old(self).status,
            final(self).deferred == old(self).deferred,
            final(self).drafting == old(self).drafting,
            final(self).last_pass_believing == old(self).last_pass_believing,
    {
        match self.pending_pass.take() {
            Some(b) => b,
            None => false,
        }
    }
}

} // verus!

//! The asynchronous image-loading pipeline, modelled as a state machine.
//!
//! Paths are submitted on the interface side, a single worker decodes them
//! one at a time in arrival order, and outcomes are polled back one per
//! frame. Both queues are unbounded and strictly first-in first-out, so
//! outcomes surface in submission order, each exactly once. A failed decode
//! is reported back as an outcome of its own rather than dropped, so the
//! in-flight counter drains on failures too and can never stay out of step
//! with the queues.

use vstd::prelude::*;

use crate::image::ImageData;

verus! {

/// What the decode worker reports for one submitted path.
pub enum DecodeOutcome {
    /// The file decoded into a bitmap; carries the submitted path.
    Loaded(ImageData, String),
    /// The file could not be decoded; carries the submitted path.
    Failed(String),
}

impl DecodeOutcome {
    /// The submitted path this outcome answers.
    pub open spec fn path_view(self) -> Seq<char> {
        match self {
            DecodeOutcome::Loaded(_, p) => p@,
            DecodeOutcome::Failed(p) => p@,
        }
    }

    /// Whether the decode succeeded.
    pub open spec fn is_loaded(self) -> bool {
        self is Loaded
    }
}

/// The paths of a queue of outcomes, oldest first.
pub open spec fn outcome_paths(s: Seq<DecodeOutcome>) -> Seq<Seq<char>> {
    s.map_values(|o: DecodeOutcome| o.path_view())
}

/// The whole loading pipeline: the request queue, the result queue and the
/// in-flight counter, together with the ghost history of what was ever
/// submitted and ever delivered.
pub struct LoadPipeline {
    /// Paths submitted and not yet decoded, oldest first.
    pub requests: Vec<String>,
    /// Outcomes decoded and not yet polled, oldest first.
    pub results: Vec<DecodeOutcome>,
    /// How many submitted paths have not yet been delivered back.
    pub images_in_flight: usize,
    /// Every path ever submitted, in order.
    pub submitted: Ghost<Seq<Seq<char>>>,
    /// The path of every outcome ever delivered, in order.
    pub delivered: Ghost<Seq<Seq<char>>>,
}

impl LoadPipeline {
    /// The pipeline invariant: what was submitted is exactly what was
    /// delivered, followed by what waits in the two queues, and the
    /// counter counts the queued entries.
    pub open spec fn inv(self) -> bool {
        &&& self.submitted@ == self.delivered@ + outcome_paths(self.results@)
            + self.requests.deep_view()
        &&& self.images_in_flight == self.requests@.len() + self.results@.len()
    }

    /// A fresh pipeline with nothing submitted.
    pub fn new() -> (p: LoadPipeline)
        ensures
            p.inv(),
            p.requests@.len() == 0,
            p.results@.len() == 0,
            p.images_in_flight == 0,
            p.submitted@ == Seq::<Seq<char>>::empty(),
            p.delivered@ == Seq::<Seq<char>>::empty(),
    {
        let p = LoadPipeline {
            requests: Vec::new(),
            results: Vec::new(),
            images_in_flight: 0,
            submitted: Ghost(Seq::empty()),
            delivered: Ghost(Seq::empty()),
        };
        assert(p.submitted@ =~= p.delivered@ + outcome_paths(p.results@)
            + p.requests.deep_view());
        p
    }

    /// Submits one path for decoding: it joins the back of the request
    /// queue and the in-flight counter grows by one. Submitting the same
    /// path twice queues two decodes.
    pub fn submit(&mut self, path: String)
        requires
            old(self).inv(),
            old(self).images_in_flight < usize::MAX,
        ensures
            final(self).inv(),
            final(self).requests.deep_view() == old(self).requests.deep_view().push(path@),
            final(self).results@ == old(self).results@,
            final(self).images_in_flight == old(self).images_in_flight + 1,
            final(self).submitted@ == old(self).submitted@.push(path@),
            final(self).delivered@ == old(self).delivered@,
    {
        let ghost old_reqs = self.requests@;
        self.requests.push(path);
        self.images_in_flight = self.images_in_flight + 1;
        proof {
            self.submitted@ = self.submitted@.push(path@);
        }
        proof {
            assert(self.requests.deep_view() =~= old_reqs.map_values(|s: String| s@).push(path@));
            assert(old(self).requests.deep_view() =~= old_reqs.map_values(|s: String| s@));
            assert(self.submitted@ =~= self.delivered@ + outcome_paths(self.results@)
                + self.requests.deep_view());
        }
    }

    /// One step of the decode worker: it takes the oldest request off the
    /// queue and reports the outcome the decoder produced for it, a bitmap
    /// or a failure. A failure never stops the worker; the next request is
    /// still processed.
    pub fn worker_step(&mut self, decoded: Option<ImageData>)
        requires
            old(self).inv(),
            old(self).requests@.len() > 0,
        ensures
            final(self).inv(),
            final(self).requests.deep_view() == old(self).requests.deep_view().drop_first(),
            final(self).results@ == old(self).results@.push(
                match decoded {
                    Some(d) => DecodeOutcome::Loaded(d, old(self).requests@[0]),
                    None => DecodeOutcome::Failed(old(self).requests@[0]),
                },
            ),
            final(self).images_in_flight == old(self).images_in_flight,
            final(self).submitted@ == old(self).submitted@,
            final(self).delivered@ == old(self).delivered@,
    {
        let ghost old_reqs = self.requests@;
        let ghost old_res = self.results@;
        let path = self.requests.remove(0);
        let outcome = match decoded {
            Some(d) => DecodeOutcome::Loaded(d, path),
            None => DecodeOutcome::Failed(path),
        };
        self.results.push(outcome);
        proof {
            assert(self.requests.deep_view() =~= old(self).requests.deep_view().drop_first()) by {
                assert(self.requests@ =~= old_reqs.drop_first());
            }
            assert(outcome_paths(self.results@) =~= outcome_paths(old_res).push(
                old_reqs[0]@,
            ));
            assert(old(self).requests.deep_view() =~= seq![old_reqs[0]@]
                + self.requests.deep_view());
            assert(self.submitted@ =~= self.delivered@ + outcome_paths(self.results@)
                + self.requests.deep_view());
        }
    }

    /// Non-blocking poll for one finished outcome: the oldest undelivered
    /// outcome if any is ready, and nothing otherwise. A delivered outcome
    /// lowers the in-flight counter by one, whether it is a bitmap or a
    /// failure report.
    pub fn try_receive(&mut self) -> (r: Option<DecodeOutcome>)
        requires
            old(self).inv(),
        ensures
            final(self).inv(),
            old(self).results@.len() == 0 ==> {
                &&& r is None
                &&& final(self).requests@ == old(self).requests@
                &&& final(self).results@ == old(self).results@
                &&& final(self).images_in_flight == old(self).images_in_flight
                &&& final(self).submitted@ == old(self).submitted@
                &&& final(self).delivered@ == old(self).delivered@
            },
            old(self).results@.len() > 0 ==> {
                &&& r == Some(old(self).results@[0])
                &&& final(self).requests@ == old(self).requests@
                &&& final(self).results@ == old(self).results@.drop_first()
                &&& final(self).images_in_flight == old(self).images_in_flight - 1
                &&& final(self).submitted@ == old(self).submitted@
                &&& final(self).delivered@ == old(self).delivered@.push(
                    old(self).results@[0].path_view(),
                )
            },
    {
        if self.results.len() == 0 {
            return None;
        }
        let ghost old_res = self.results@;
        let outcome = self.results.remove(0);
        self.images_in_flight = self.images_in_flight - 1;
        proof {
            self.delivered@ = self.delivered@.push(outcome.path_view());
        }
        proof {
            assert(self.results@ =~= old_res.drop_first());
            assert(outcome_paths(old_res) =~= seq![old_res[0].path_view()] + outcome_paths(
                self.results@,
            ));
            assert(self.submitted@ =~= self.delivered@ + outcome_paths(self.results@)
                + self.requests.deep_view());
        }
        Some(outcome)
    }
}

/// Delivery is first-in first-out with no loss and no duplication: at every
/// reachable state, the paths delivered so far are exactly the first
/// submitted paths, in submission order, and the in-flight counter counts
/// the submitted paths not yet delivered.
pub proof fn lemma_delivery_in_order(p: LoadPipeline)
    requires
        p.inv(),
    ensures
        p.delivered@ == p.submitted@.take(p.delivered@.len() as int),
        p.delivered@.len() + p.images_in_flight == p.submitted@.len(),
{
    assert(p.delivered@ =~= p.submitted@.take(p.delivered@.len() as int));
}

/// A drained pipeline has delivered every submitted path exactly once, in
/// submission order, and its in-flight counter stands at zero again.
pub proof fn lemma_drained_delivery(p: LoadPipeline)
    requires
        p.inv(),
        p.requests@.len() == 0,
        p.results@.len() == 0,
    ensures
        p.delivered@ == p.submitted@,
        p.images_in_flight == 0,
{
    assert(p.delivered@ =~= p.submitted@);
}

} // verus!

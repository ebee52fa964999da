//! Aggregation policy for batched lifecycle operations.
//!
//! A batch fans one operation out over N targets; every target is
//! attempted, each outcome is reported on its own, and the batch as a
//! whole fails exactly when at least one unit failed.

use vstd::prelude::*;
use crate::Error;
use crate::text::str_views;

verus! {

/// The outcome of one batch unit: the target it ran against, and either
/// the unit's payload lines or the engine's error message.
#[derive(Debug)]
pub struct BatchOutcome {
    pub target: String,
    pub outcome: Result<Vec<String>, String>,
}

/// Mathematical model of a [`BatchOutcome`].
#[verifier::ext_equal]
pub struct BatchOutcomeModel {
    pub target: Seq<char>,
    pub outcome: Result<Seq<Seq<char>>, Seq<char>>,
}

impl View for BatchOutcome {
    type V = BatchOutcomeModel;

    open spec fn view(&self) -> BatchOutcomeModel {
        BatchOutcomeModel { target: self.target@, outcome: outcome_view(self.outcome) }
    }
}

/// The model of one unit's raw result.
pub open spec fn outcome_view(res: Result<Vec<String>, String>) -> Result<
    Seq<Seq<char>>,
    Seq<char>,
> {
    match res {
        Ok(lines) => Ok(str_views(lines@)),
        Err(msg) => Err(msg@),
    }
}

/// The models of a sequence of outcomes.
pub open spec fn outcome_views(os: Seq<BatchOutcome>) -> Seq<BatchOutcomeModel> {
    os.map_values(|o: BatchOutcome| o@)
}

/// Attach or interactive mode needs exactly one target; reject the
/// request before any engine call otherwise.
pub fn check_attach_policy(n_targets: usize, attach: bool, interactive: bool) -> (r: Result<
    (),
    Error,
>)
    ensures
        (r is Ok) <==> (n_targets == 1 || (!attach && !interactive)),
        r matches Err(e) ==> e is MultiAttachUnsupported,
{
    if n_targets == 1 || (!attach && !interactive) {
        Ok(())
    } else {
        Err(Error::MultiAttachUnsupported)
    }
}

/// Joins the units' results back to their targets, one outcome per
/// target, in order: no target is dropped or duplicated.
pub fn pair_outcomes(targets: &Vec<String>, results: Vec<Result<Vec<String>, String>>) -> (r: Vec<
    BatchOutcome,
>)
    requires
        targets@.len() == results@.len(),
    ensures
        r@.len() == targets@.len(),
        forall|i: int|
            0 <= i < r@.len() ==> {
                &&& (#[trigger] r@[i])@.target == targets@[i]@
                &&& r@[i]@.outcome == outcome_view(results@[i])
            },
{
    let ghost results0 = results@;
    let mut rem = results;
    let mut out: Vec<BatchOutcome> = Vec::new();
    let mut k = targets.len();
    while k > 0
        invariant
            k <= targets@.len(),
            targets@.len() == results0.len(),
            rem@ == results0.take(k as int),
            out@.len() == targets@.len() - k,
            forall|i: int|
                0 <= i < out@.len() ==> {
                    &&& (#[trigger] out@[i])@.target == targets@[i + k]@
                    &&& out@[i]@.outcome == outcome_view(results0[i + k])
                },
        decreases k,
    {
        k = k - 1;
        proof {
            assert(rem@.len() == k + 1);
            assert(rem@.last() == results0[k as int]);
            assert(rem@.drop_last() =~= results0.take(k as int));
        }
        let res = match rem.pop() {
            Option::Some(res) => res,
            Option::None => {
                proof {
                    assert(false);
                }
                return out;
            },
        };
        out.insert(0, BatchOutcome { target: targets[k].clone(), outcome: res });
    }
    out
}

/// The targets of the units that succeeded, in order: the success lines
/// a batch command prints.
pub open spec fn success_targets(os: Seq<BatchOutcomeModel>) -> Seq<Seq<char>>
    decreases os.len(),
{
    if os.len() == 0 {
        Seq::empty()
    } else {
        success_targets(os.drop_last()) + if os.last().outcome is Ok {
            seq![os.last().target]
        } else {
            Seq::empty()
        }
    }
}

/// The targets and messages of the units that failed, in order: what a
/// batch command logs to its error stream.
pub open spec fn failure_reports(os: Seq<BatchOutcomeModel>) -> Seq<(Seq<char>, Seq<char>)>
    decreases os.len(),
{
    if os.len() == 0 {
        Seq::empty()
    } else {
        failure_reports(os.drop_last()) + match os.last().outcome {
            Ok(_) => Seq::empty(),
            Err(msg) => seq![(os.last().target, msg)],
        }
    }
}

/// The successful targets of a finished batch.
pub fn successes(outcomes: &Vec<BatchOutcome>) -> (r: Vec<String>)
    ensures
        str_views(r@) == success_targets(outcome_views(outcomes@)),
{
    let mut out: Vec<String> = Vec::new();
    let n = outcomes.len();
    let mut k: usize = 0;
    proof {
        assert(outcome_views(outcomes@).take(0) =~= Seq::<BatchOutcomeModel>::empty());
        assert(str_views(out@) =~= success_targets(outcome_views(outcomes@).take(0)));
    }
    while k < n
        invariant
            k <= n,
            n == outcomes@.len(),
            str_views(out@) == success_targets(outcome_views(outcomes@).take(k as int)),
        decreases n - k,
    {
        proof {
            assert(outcome_views(outcomes@).take(k + 1).drop_last() =~= outcome_views(
                outcomes@,
            ).take(k as int));
            assert(outcome_views(outcomes@).take(k + 1).last() == outcomes@[k as int]@);
        }
        if outcomes[k].outcome.is_ok() {
            out.push(outcomes[k].target.clone());
        }
        proof {
            assert(str_views(out@) =~= success_targets(outcome_views(outcomes@).take(k + 1)));
        }
        k = k + 1;
    }
    proof {
        assert(outcome_views(outcomes@).take(n as int) =~= outcome_views(outcomes@));
    }
    out
}

/// One failed unit, as reported: its target and the engine's message.
#[derive(Debug, Clone)]
pub struct FailureLine {
    pub target: String,
    pub message: String,
}

impl View for FailureLine {
    type V = (Seq<char>, Seq<char>);

    open spec fn view(&self) -> (Seq<char>, Seq<char>) {
        (self.target@, self.message@)
    }
}

/// The views of a sequence of failure lines.
pub open spec fn failure_views(fs: Seq<FailureLine>) -> Seq<(Seq<char>, Seq<char>)> {
    fs.map_values(|f: FailureLine| f@)
}

/// The failed targets of a finished batch, each with its message.
pub fn failures(outcomes: &Vec<BatchOutcome>) -> (r: Vec<FailureLine>)
    ensures
        failure_views(r@) == failure_reports(outcome_views(outcomes@)),
{
    let mut out: Vec<FailureLine> = Vec::new();
    let n = outcomes.len();
    let mut k: usize = 0;
    proof {
        assert(outcome_views(outcomes@).take(0) =~= Seq::<BatchOutcomeModel>::empty());
        assert(failure_views(out@) =~= failure_reports(outcome_views(outcomes@).take(0)));
    }
    while k < n
        invariant
            k <= n,
            n == outcomes@.len(),
            failure_views(out@) == failure_reports(outcome_views(outcomes@).take(k as int)),
        decreases n - k,
    {
        proof {
            assert(outcome_views(outcomes@).take(k + 1).drop_last() =~= outcome_views(
                outcomes@,
            ).take(k as int));
            assert(outcome_views(outcomes@).take(k + 1).last() == outcomes@[k as int]@);
        }
        match &outcomes[k].outcome {
            Ok(_) => {},
            Err(msg) => {
                out.push(FailureLine { target: outcomes[k].target.clone(), message: msg.clone() });
            },
        }
        proof {
            assert(failure_views(out@) =~= failure_reports(outcome_views(outcomes@).take(k + 1)));
        }
        k = k + 1;
    }
    proof {
        assert(outcome_views(outcomes@).take(n as int) =~= outcome_views(outcomes@));
    }
    out
}

/// Every unit of a finished batch is reported exactly once: either its
/// target stands among the success lines or it stands, with its message,
/// among the failure reports.
pub proof fn lemma_every_outcome_reported(os: Seq<BatchOutcomeModel>)
    ensures
        success_targets(os).len() + failure_reports(os).len() == os.len(),
    decreases os.len(),
{
    if os.len() > 0 {
        lemma_every_outcome_reported(os.drop_last());
    }
}

/// What removing one image reference reported back: the tag that was
/// untagged, the layer that was deleted, or either alone.
#[derive(Debug, Clone)]
pub struct ImageDeleteItem {
    pub untagged: Option<String>,
    pub deleted: Option<String>,
}

/// Mathematical model of an [`ImageDeleteItem`].
#[verifier::ext_equal]
pub struct ImageDeleteItemModel {
    pub untagged: Option<Seq<char>>,
    pub deleted: Option<Seq<char>>,
}

impl View for ImageDeleteItem {
    type V = ImageDeleteItemModel;

    open spec fn view(&self) -> ImageDeleteItemModel {
        ImageDeleteItemModel {
            untagged: match self.untagged {
                Option::Some(u) => Option::Some(u@),
                Option::None => Option::None,
            },
            deleted: match self.deleted {
                Option::Some(d) => Option::Some(d@),
                Option::None => Option::None,
            },
        }
    }
}

/// The lines one delete response item prints: its untagged reference,
/// then its deleted reference, each only when present.
pub open spec fn delete_item_lines(item: ImageDeleteItemModel) -> Seq<Seq<char>> {
    (match item.untagged {
        Option::Some(u) => seq!["Untagged: "@ + u],
        Option::None => Seq::empty(),
    }) + (match item.deleted {
        Option::Some(d) => seq!["Deleted: "@ + d],
        Option::None => Seq::empty(),
    })
}

/// The payload lines of one image removal, item by item.
pub open spec fn delete_lines(items: Seq<ImageDeleteItemModel>) -> Seq<Seq<char>>
    decreases items.len(),
{
    if items.len() == 0 {
        Seq::empty()
    } else {
        delete_lines(items.drop_last()) + delete_item_lines(items.last())
    }
}

/// The views of a sequence of delete response items.
pub open spec fn delete_item_views(items: Seq<ImageDeleteItem>) -> Seq<ImageDeleteItemModel> {
    items.map_values(|i: ImageDeleteItem| i@)
}

/// The success payload of one image removal: an `Untagged:` line for
/// every untagged reference and a `Deleted:` line for every deleted one,
/// in response order.
pub fn image_delete_lines(items: &Vec<ImageDeleteItem>) -> (r: Vec<String>)
    ensures
        str_views(r@) == delete_lines(delete_item_views(items@)),
{
    let mut out: Vec<String> = Vec::new();
    let n = items.len();
    let mut k: usize = 0;
    proof {
        assert(delete_item_views(items@).take(0) =~= Seq::<ImageDeleteItemModel>::empty());
        assert(str_views(out@) =~= delete_lines(delete_item_views(items@).take(0)));
    }
    while k < n
        invariant
            k <= n,
            n == items@.len(),
            str_views(out@) == delete_lines(delete_item_views(items@).take(k as int)),
        decreases n - k,
    {
        proof {
            assert(delete_item_views(items@).take(k + 1).drop_last() =~= delete_item_views(
                items@,
            ).take(k as int));
            assert(delete_item_views(items@).take(k + 1).last() == items@[k as int]@);
        }
        match &items[k].untagged {
            Option::Some(untagged) => {
                let mut line = String::from_str("Untagged: ");
                line.append(untagged.as_str());
                out.push(line);
            },
            Option::None => {},
        }
        match &items[k].deleted {
            Option::Some(deleted) => {
                let mut line = String::from_str("Deleted: ");
                line.append(deleted.as_str());
                out.push(line);
            },
            Option::None => {},
        }
        proof {
            assert(str_views(out@) =~= delete_lines(delete_item_views(items@).take(k + 1)));
        }
        k = k + 1;
    }
    proof {
        assert(delete_item_views(items@).take(n as int) =~= delete_item_views(items@));
    }
    out
}

/// The one overall result of a finished batch: it fails if and only if
/// at least one unit failed, and only after every unit has been counted.
pub fn batch_verdict(outcomes: &Vec<BatchOutcome>) -> (r: Result<(), Error>)
    ensures
        (r is Ok) <==> (forall|i: int|
            0 <= i < outcomes@.len() ==> (#[trigger] outcomes@[i])@.outcome is Ok),
        r matches Err(e) ==> e is BatchFailed,
{
    let n = outcomes.len();
    let mut k: usize = 0;
    let mut failed = false;
    while k < n
        invariant
            k <= n,
            n == outcomes@.len(),
            failed <==> exists|i: int|
                0 <= i < k && !((#[trigger] outcomes@[i])@.outcome is Ok),
        decreases n - k,
    {
        if outcomes[k].outcome.is_err() {
            failed = true;
        }
        k = k + 1;
    }
    if failed {
        Err(Error::BatchFailed)
    } else {
        Ok(())
    }
}

} // verus!
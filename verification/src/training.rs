//! Training: the session in which discharges are collected one after the other,
//! and the dataset that a complete session gives.
use vstd::arithmetic::power2::{lemma2_to64, lemma_pow2_adds, lemma_pow2_pos, pow2};
use vstd::prelude::*;
use vstd::string::*;

use crate::api::{
    api_discharge_to_internal_signals, are_internal, are_taken_over, internal_by_names_and_values,
    same_both_ways, same_sent_signals, signal_class, taken_over_by, with_their_class,
    Discharge as ApiDischarge,
};
use crate::arithmetic::{computes, Arithmetic, Operations};
use crate::dataset::{
    are_records, describes_windows, every_record_is_full, get_dataset, parts_described_by,
    targets_follow_classes, FEATURES,
};
use crate::doubles::{exact, exponent_bits, fraction_bits};
use crate::identifiers::{is_random_identifier, random_identifier};
use crate::signals::{
    all_signals, all_signals_follow_each_other, discharge_views, extremes,
    extremes_hold_least_and_greatest, gathered_extremes_cover, holds_greatest, holds_least,
    Discharge, DischargeView, DisruptionClass, NormalizationParams, Signal,
};
use crate::tables::{dataset_columns, dataset_records, dataset_targets, Dataset};

verus! {

/// A request to begin a session.
pub struct StartTrainingRequest {
    pub total_discharges: usize,
    pub timeout_seconds: usize,
}

/// The answer to a request that began a session.
#[derive(Clone, Copy, Debug, PartialEq, Eq, Structural)]
pub struct StartTrainingResponse {
    pub expected_discharges: usize,
}

/// The answer to a discharge that was taken.
#[derive(Clone, Copy, Debug, PartialEq, Eq, Structural)]
pub struct DischargeAck {
    pub ordinal: usize,
    pub total_discharges: usize,
}

/// A session: the discharges received so far, and how many there will be.
pub struct TrainingSession {
    pub total_discharges: usize,
    pub discharges: Vec<ApiDischarge>,
}

/// What a session amounts to.
pub struct SessionView {
    pub total: nat,
    pub discharges: Seq<ApiDischarge>,
}

impl View for TrainingSession {
    type V = SessionView;

    open spec fn view(&self) -> SessionView {
        SessionView { total: self.total_discharges as nat, discharges: self.discharges@ }
    }
}

/// What the session in progress amounts to, where there is one.
pub open spec fn progress(training: Option<TrainingSession>) -> Option<SessionView> {
    match training {
        Some(session) => Some(session@),
        None => None,
    }
}

/// The answer to a request to begin a session.
pub enum StartReply {
    /// A session is in progress.
    Unavailable,
    /// A session has begun.
    Started(StartTrainingResponse),
}

/// The answer to a discharge.
pub enum PushReply {
    /// There is no session in progress.
    Unavailable,
    /// The discharge is not the next one, or it is one too many.
    BadRequest,
    /// The discharge was taken, and more are awaited.
    Accepted(DischargeAck),
    /// The discharge was the last one: the session is over, and the model is to be
    /// trained with all its discharges.
    Completed(DischargeAck, Vec<ApiDischarge>),
}

/// What becomes of a discharge.
pub enum Outcome {
    Unavailable,
    BadRequest,
    Accepted,
    Completed(Seq<ApiDischarge>),
}

/// The session that a request to begin one leaves behind.
pub open spec fn started(session: Option<SessionView>, total: nat) -> Option<SessionView> {
    match session {
        Some(_) => session,
        None => Some(SessionView { total, discharges: Seq::empty() }),
    }
}

/// Whether `ordinal` is that of the next discharge, and one that is awaited.
pub open spec fn is_next(session: SessionView, ordinal: nat) -> bool {
    ordinal == session.discharges.len() + 1 && ordinal <= session.total
}

/// What becomes of a discharge with the given ordinal.
pub open spec fn outcome(
    session: Option<SessionView>,
    ordinal: nat,
    discharge: ApiDischarge,
) -> Outcome {
    match session {
        None => Outcome::Unavailable,
        Some(s) => if !is_next(s, ordinal) {
            Outcome::BadRequest
        } else if ordinal == s.total {
            Outcome::Completed(s.discharges.push(discharge))
        } else {
            Outcome::Accepted
        },
    }
}

/// The session that a discharge with the given ordinal leaves behind.
pub open spec fn pushed(
    session: Option<SessionView>,
    ordinal: nat,
    discharge: ApiDischarge,
) -> Option<SessionView> {
    match session {
        None => None,
        Some(s) => if !is_next(s, ordinal) {
            session
        } else if ordinal == s.total {
            None
        } else {
            Some(SessionView { discharges: s.discharges.push(discharge), ..s })
        },
    }
}

/// Whether a session still awaits discharges. A session over no discharges awaits
/// none and has none.
pub open spec fn is_open(session: Option<SessionView>) -> bool {
    match session {
        Some(s) => s.discharges.len() < s.total || s.discharges.len() == 0,
        None => true,
    }
}

/// Begins a session, unless one is in progress.
pub fn start_training(
    training: &mut Option<TrainingSession>,
    request: &StartTrainingRequest,
) -> (reply: StartReply)
    ensures
        progress(*final(training)) == started(
            progress(*old(training)),
            request.total_discharges as nat,
        ),
        match *old(training) {
            Some(_) => reply is Unavailable && *final(training) == *old(training),
            None => reply == StartReply::Started(
                StartTrainingResponse { expected_discharges: request.total_discharges },
            ),
        },
{
    if training.is_some() {
        return StartReply::Unavailable;
    }
    let session = TrainingSession {
        total_discharges: request.total_discharges,
        discharges: Vec::new(),
    };
    assert(session@.discharges =~= Seq::<ApiDischarge>::empty());
    *training = Some(session);
    StartReply::Started(StartTrainingResponse { expected_discharges: request.total_discharges })
}

/// Takes the discharge with the given ordinal into the session, where it is the next.
pub fn push_discharge(
    training: &mut Option<TrainingSession>,
    ordinal: usize,
    discharge: ApiDischarge,
) -> (reply: PushReply)
    ensures
        progress(*final(training)) == pushed(progress(*old(training)), ordinal as nat, discharge),
        match outcome(progress(*old(training)), ordinal as nat, discharge) {
            Outcome::Unavailable => reply is Unavailable && *final(training) == *old(training),
            Outcome::BadRequest => reply is BadRequest && *final(training) == *old(training),
            Outcome::Accepted => reply == PushReply::Accepted(
                DischargeAck {
                    ordinal,
                    total_discharges: old(training)->Some_0.total_discharges,
                },
            ),
            Outcome::Completed(discharges) => {
                &&& reply matches PushReply::Completed(ack, received)
                &&& ack == DischargeAck {
                    ordinal,
                    total_discharges: old(training)->Some_0.total_discharges,
                }
                &&& received@ == discharges
            },
        },
{
    match training.take() {
        None => PushReply::Unavailable,
        Some(mut session) => {
            if ordinal == 0 || ordinal - 1 != session.discharges.len() || ordinal
                > session.total_discharges {
                *training = Some(session);
                return PushReply::BadRequest;
            }
            session.discharges.push(discharge);
            let total: usize = session.total_discharges;
            let ack = DischargeAck { ordinal, total_discharges: total };
            if ordinal == total {
                PushReply::Completed(ack, session.discharges)
            } else {
                *training = Some(session);
                PushReply::Accepted(ack)
            }
        },
    }
}

/// `discharges` are those that clients sent, each with its class and its signals.
pub open spec fn are_internal_discharges(
    sent: Seq<ApiDischarge>,
    discharges: Seq<DischargeView>,
) -> bool {
    &&& discharges.len() == sent.len()
    &&& forall|i: int|
        0 <= i < sent.len() ==> {
            &&& (#[trigger] discharges[i]).class == signal_class(sent[i])
            &&& are_internal(sent[i], discharges[i].signals)
        }
}

/// `rows` and `targets` are the records and targets of all discharges that clients
/// sent, normalized by the extremes of all their signals.
pub open spec fn are_training_records<A: Arithmetic>(
    a: A,
    sent: Seq<ApiDischarge>,
    rows: Seq<Seq<u64>>,
    targets: Seq<bool>,
) -> bool {
    exists|discharges: Seq<DischargeView>| #[trigger]
        are_internal_discharges(sent, discharges) && are_records(
            a,
            discharges,
            extremes(all_signals(discharges)),
            rows,
            targets,
        )
}

/// The discharges that clients sent, each with its class and its signals.
pub fn internal_discharges(sent: &Vec<ApiDischarge>) -> (discharges: Vec<Discharge>)
    ensures
        are_internal_discharges(sent@, discharge_views(discharges@)),
{
    let mut discharges: Vec<Discharge> = Vec::new();
    let mut i: usize = 0;
    while i < sent.len()
        invariant
            i <= sent@.len(),
            are_internal_discharges(sent@.take(i as int), discharge_views(discharges@)),
        decreases sent@.len() - i,
    {
        let class = match sent[i].anomaly_time {
            Some(_) => DisruptionClass::Anomaly,
            None => DisruptionClass::Normal,
        };
        let ghost before = discharge_views(discharges@);
        discharges.push(Discharge::new(class, api_discharge_to_internal_signals(&sent[i])));
        proof {
            let now = discharge_views(discharges@);
            assert forall|j: int| 0 <= j < now.len() implies (#[trigger] now[j]).class
                == signal_class(sent@[j]) && are_internal(sent@[j], now[j].signals) by {
                if j < i {
                    assert(before[j].class == signal_class(sent@.take(i as int)[j]));
                }
            }
        }
        i = i + 1;
    }
    assert(sent@.take(i as int) =~= sent@);
    discharges
}

/// The dataset with which a model is trained: the records of all discharges,
/// normalized by the extremes of all their signals.
pub fn training_dataset<A: Arithmetic>(a: &A, sent: &Vec<ApiDischarge>) -> (dataset: Dataset)
    ensures
        are_training_records(*a, sent@, dataset_records(dataset), dataset_targets(dataset)),
        dataset_columns(dataset) == FEATURES,
{
    let discharges = internal_discharges(sent);
    let params = NormalizationParams::of_discharges(&discharges);
    proof {
        let views = discharge_views(discharges@);
        gathered_extremes_cover(views);
        assert forall|i: int| 0 <= i < discharges@.len() implies params@.covers(
            (#[trigger] discharges@[i]).signals@,
        ) by {
            assert(params@.covers(views[i].signals));
        }
    }
    get_dataset(a, discharges, &params)
}

/// Whether the discharges of both lists are of the same classes, one by one.
pub open spec fn same_classes(d: Seq<ApiDischarge>, e: Seq<ApiDischarge>) -> bool {
    &&& d.len() == e.len()
    &&& forall|i: int| 0 <= i < d.len() ==> signal_class(#[trigger] d[i]) == signal_class(e[i])
}

/// What a training is given depends on the names and values of the sent signals and
/// on whether there is a time of an anomaly. Identifiers, times, lengths and the
/// time of the anomaly itself have no influence.
pub proof fn training_goes_by_names_and_values<A: Arithmetic>(
    a: A,
    d: Seq<ApiDischarge>,
    e: Seq<ApiDischarge>,
    rows: Seq<Seq<u64>>,
    targets: Seq<bool>,
)
    requires
        same_classes(d, e),
        forall|i: int| 0 <= i < d.len() ==> same_sent_signals(#[trigger] d[i], e[i]),
    ensures
        are_training_records(a, d, rows, targets) <==> are_training_records(a, e, rows, targets),
{
    if are_training_records(a, d, rows, targets) {
        same_training_records(a, d, e, rows, targets);
    }
    if are_training_records(a, e, rows, targets) {
        assert forall|i: int| 0 <= i < e.len() implies signal_class(#[trigger] e[i])
            == signal_class(d[i]) && same_sent_signals(e[i], d[i]) by {
            assert(signal_class(d[i]) == signal_class(e[i]));
            assert(same_sent_signals(d[i], e[i]));
            same_both_ways(d[i], e[i]);
        }
        same_training_records(a, e, d, rows, targets);
    }
}

/// The records of discharges are also those of others with the same signals and classes.
proof fn same_training_records<A: Arithmetic>(
    a: A,
    d: Seq<ApiDischarge>,
    e: Seq<ApiDischarge>,
    rows: Seq<Seq<u64>>,
    targets: Seq<bool>,
)
    requires
        same_classes(d, e),
        forall|i: int| 0 <= i < d.len() ==> same_sent_signals(#[trigger] d[i], e[i]),
        are_training_records(a, d, rows, targets),
    ensures
        are_training_records(a, e, rows, targets),
{
    let discharges = choose|discharges: Seq<DischargeView>| #[trigger]
        are_internal_discharges(d, discharges) && are_records(
            a,
            discharges,
            extremes(all_signals(discharges)),
            rows,
            targets,
        );
    assert forall|i: int| 0 <= i < e.len() implies (#[trigger] discharges[i]).class
        == signal_class(e[i]) && are_internal(e[i], discharges[i].signals) by {
        let signals = discharges[i].signals;
        assert(signal_class(d[i]) == signal_class(e[i]));
        assert(same_sent_signals(d[i], e[i]));
        assert(are_internal(d[i], signals));
        internal_by_names_and_values(d[i], e[i], signals);
        with_their_class(signals, signal_class(e[i]));
    }
    assert(are_internal_discharges(e, discharges));
}

/// How well a model does.
#[derive(Clone, Copy, Debug, PartialEq, Eq, Structural)]
pub struct TrainingMetrics {
    pub accuracy: u64,
    pub loss: u64,
    pub f1_score: u64,
}

/// The answer to a training.
pub struct TrainingResponse {
    pub status: String,
    pub message: String,
    pub training_id: String,
    pub metrics: TrainingMetrics,
    pub execution_time_ms: u64,
}

/// The pattern of `0.95`.
pub const ACCURACY: u64 = 0x3FEE_6666_6666_6666;

/// The pattern of `0.12`.
pub const LOSS: u64 = 0x3FBE_B851_EB85_1EB8;

/// The pattern of `0.94`.
pub const F1_SCORE: u64 = 0x3FEE_147A_E147_AE14;

/// The answer to a training that was given the identifier `id`.
pub fn identified_response(id: &str, execution_time_ms: u64) -> (response: TrainingResponse)
    ensures
        response.status@ == "success"@,
        response.message@ == "Entrenamiento completado con éxito"@,
        response.training_id@ == "train_"@ + id@,
        response.metrics == (TrainingMetrics {
            accuracy: ACCURACY,
            loss: LOSS,
            f1_score: F1_SCORE,
        }),
        response.execution_time_ms == execution_time_ms,
{
    let mut training_id = String::from_str("train_");
    training_id.append(id);
    TrainingResponse {
        status: String::from_str("success"),
        message: String::from_str("Entrenamiento completado con éxito"),
        training_id,
        metrics: TrainingMetrics { accuracy: ACCURACY, loss: LOSS, f1_score: F1_SCORE },
        execution_time_ms,
    }
}

/// The answer to a training that took the given time, with an identifier of its own.
pub fn training_response(execution_time_ms: u64) -> (response: TrainingResponse)
    ensures
        response.status@ == "success"@,
        response.message@ == "Entrenamiento completado con éxito"@,
        exists|id: Seq<char>| #[trigger]
            is_random_identifier(id) && response.training_id@ == "train_"@ + id,
        response.metrics == (TrainingMetrics {
            accuracy: ACCURACY,
            loss: LOSS,
            f1_score: F1_SCORE,
        }),
        response.execution_time_ms == execution_time_ms,
{
    let id = random_identifier();
    identified_response(id.as_str(), execution_time_ms)
}

/// The session that discharges leave behind which are sent one after the other,
/// with the ordinals 1, 2, and so on.
pub open spec fn uploaded(
    session: Option<SessionView>,
    discharges: Seq<ApiDischarge>,
) -> Option<SessionView>
    decreases discharges.len(),
{
    if discharges.len() == 0 {
        session
    } else {
        pushed(
            uploaded(session, discharges.drop_last()),
            discharges.len(),
            discharges.last(),
        )
    }
}

/// Discharges that are sent in order into a new session are all taken, up to the
/// last one that is awaited. With that one the session is over, and it hands out
/// all discharges in the order in which they were sent.
pub proof fn upload_in_order_completes(total: nat, discharges: Seq<ApiDischarge>)
    requires
        0 < discharges.len() <= total,
    ensures
        outcome(
            uploaded(started(None, total), discharges.drop_last()),
            discharges.len(),
            discharges.last(),
        ) == (if discharges.len() < total {
            Outcome::Accepted
        } else {
            Outcome::Completed(discharges)
        }),
        uploaded(started(None, total), discharges) == (if discharges.len() < total {
            Some(SessionView { total, discharges })
        } else {
            None
        }),
    decreases discharges.len(),
{
    let rest = discharges.drop_last();
    let new = started(None, total);
    if rest.len() > 0 {
        upload_in_order_completes(total, rest);
    } else {
        assert(rest =~= Seq::<ApiDischarge>::empty());
        assert(uploaded(new, rest) == new);
    }
    assert(rest.push(discharges.last()) =~= discharges);
}

/// A discharge that is refused leaves the session as it was.
pub proof fn refused_discharge_changes_nothing(
    session: Option<SessionView>,
    ordinal: nat,
    discharge: ApiDischarge,
)
    requires
        outcome(session, ordinal, discharge) is Unavailable || outcome(
            session,
            ordinal,
            discharge,
        ) is BadRequest,
    ensures
        pushed(session, ordinal, discharge) == session,
{
}

/// No request begins a session while another is in progress, and none disturbs it.
pub proof fn one_session_at_a_time(session: SessionView, total: nat)
    ensures
        started(Some(session), total) == Some(session),
{
}

/// A session that is over is gone: it holds as many discharges as were announced,
/// and another session can begin.
pub proof fn completed_session_is_over(
    session: SessionView,
    ordinal: nat,
    discharge: ApiDischarge,
    total: nat,
)
    requires
        outcome(Some(session), ordinal, discharge) is Completed,
    ensures
        outcome(Some(session), ordinal, discharge)->Completed_0.len() == session.total,
        pushed(Some(session), ordinal, discharge) is None,
        started(pushed(Some(session), ordinal, discharge), total) == Some(
            SessionView { total, discharges: Seq::empty() },
        ),
{
}

/// Whatever is requested, a session never holds all discharges that it awaits:
/// the last one ends it.
pub proof fn sessions_stay_open(
    session: Option<SessionView>,
    ordinal: nat,
    discharge: ApiDischarge,
    total: nat,
)
    requires
        is_open(session),
    ensures
        is_open(pushed(session, ordinal, discharge)),
        is_open(started(session, total)),
{
}

/// A session over at least one discharge takes the next discharge and no other.
pub proof fn exactly_the_next_is_taken(
    session: SessionView,
    ordinal: nat,
    discharge: ApiDischarge,
)
    requires
        is_open(Some(session)),
        session.total > 0,
    ensures
        outcome(Some(session), ordinal, discharge) is BadRequest <==> ordinal
            != session.discharges.len() + 1,
{
}

/// A session over no discharges refuses every discharge.
pub proof fn empty_session_takes_nothing(
    session: SessionView,
    ordinal: nat,
    discharge: ApiDischarge,
)
    requires
        session.total == 0,
    ensures
        outcome(Some(session), ordinal, discharge) is BadRequest,
{
}

/// What it is to be the records of a training: they describe the windows of the signals
/// that are taken over of each discharge, one discharge after the other, normalized by the
/// least and the greatest of all these signals. The targets of all records of a discharge
/// say whether it has a time of an anomaly.
pub proof fn training_described_by<A: Arithmetic>(
    a: A,
    f: Operations,
    sent: Seq<ApiDischarge>,
    rows: Seq<Seq<u64>>,
    targets: Seq<bool>,
) -> (r: (Seq<Seq<Signal>>, Map<u32, u64>, Map<u32, u64>, Seq<Seq<Seq<u64>>>))
    requires
        computes(a, f),
        are_training_records(a, sent, rows, targets),
    ensures
        r.0.len() == sent.len(),
        r.3.len() == sent.len(),
        forall|i: int| 0 <= i < sent.len() ==> are_taken_over(sent[i], #[trigger] r.0[i]),
        forall|kind: u32| #[trigger] holds_least(r.1, r.0.flatten(), kind),
        forall|kind: u32| #[trigger] holds_greatest(r.2, r.0.flatten(), kind),
        rows == r.3.flatten(),
        targets == Seq::new(
            r.3.len(),
            |i: int| Seq::new(r.3[i].len(), |w: int| sent[i].anomaly_time is Some),
        ).flatten(),
        forall|i: int|
            0 <= i < sent.len() ==> describes_windows(f, r.0[i], r.1, r.2, #[trigger] r.3[i]),
{
    let discharges = choose|discharges: Seq<DischargeView>| #[trigger]
        are_internal_discharges(sent, discharges) && are_records(
            a,
            discharges,
            extremes(all_signals(discharges)),
            rows,
            targets,
        );
    let params = extremes(all_signals(discharges));
    let parts = parts_described_by(a, f, discharges, params, rows, targets);
    let lists = discharges.map_values(|d: DischargeView| d.signals);
    all_signals_follow_each_other(discharges);
    assert forall|i: int| 0 <= i < sent.len() implies are_taken_over(
        sent[i],
        #[trigger] lists[i],
    ) by {
        assert(discharges[i].class == signal_class(sent[i]));
        taken_over_by(sent[i], discharges[i].signals);
    }
    assert forall|kind: u32| #[trigger] holds_least(params.low, lists.flatten(), kind) by {
        extremes_hold_least_and_greatest(all_signals(discharges), kind);
    }
    assert forall|kind: u32| #[trigger] holds_greatest(params.high, lists.flatten(), kind) by {
        extremes_hold_least_and_greatest(all_signals(discharges), kind);
    }
    let marks = Seq::new(
        parts.len(),
        |i: int|
            Seq::new(
                parts[i].len(),
                |w: int| discharges[i].class == DisruptionClass::Anomaly,
            ),
    );
    let same = Seq::new(
        parts.len(),
        |i: int| Seq::new(parts[i].len(), |w: int| sent[i].anomaly_time is Some),
    );
    assert forall|i: int| 0 <= i < parts.len() implies #[trigger] marks[i] == same[i] by {
        assert(discharges[i].class == signal_class(sent[i]));
        assert(marks[i] =~= same[i]);
    }
    assert(marks =~= same);
    assert forall|i: int| 0 <= i < sent.len() implies describes_windows(
        f,
        lists[i],
        params.low,
        params.high,
        #[trigger] parts[i],
    ) by {
        assert(lists[i] == discharges[i].signals);
    }
    (lists, params.low, params.high, parts)
}

/// The dataset of a training describes the windows of all discharges, one discharge after
/// the other. The targets of all records of a discharge are an anomaly exactly where it
/// has a time of an anomaly, whatever this time and everything else about it are.
pub proof fn training_describes_windows<A: Arithmetic>(
    a: A,
    f: Operations,
    sent: Vec<ApiDischarge>,
    dataset: Dataset,
) -> (r: (Seq<Seq<Signal>>, Map<u32, u64>, Map<u32, u64>, Seq<Seq<Seq<u64>>>))
    requires
        computes(a, f),
        call_ensures(training_dataset::<A>, (&a, &sent), dataset),
    ensures
        r.0.len() == sent@.len(),
        r.3.len() == sent@.len(),
        forall|i: int| 0 <= i < sent@.len() ==> are_taken_over(sent@[i], #[trigger] r.0[i]),
        forall|kind: u32| #[trigger] holds_least(r.1, r.0.flatten(), kind),
        forall|kind: u32| #[trigger] holds_greatest(r.2, r.0.flatten(), kind),
        dataset_columns(dataset) == 14,
        dataset_records(dataset) == r.3.flatten(),
        dataset_targets(dataset) == Seq::new(
            r.3.len(),
            |i: int| Seq::new(r.3[i].len(), |w: int| sent@[i].anomaly_time is Some),
        ).flatten(),
        forall|i: int|
            0 <= i < sent@.len() ==> describes_windows(f, r.0[i], r.1, r.2, #[trigger] r.3[i]),
{
    training_described_by(a, f, sent@, dataset_records(dataset), dataset_targets(dataset))
}

/// Where discharges all have a time of an anomaly, or none has one, their records have one
/// and the same target, which says so.
pub proof fn times_make_targets<A: Arithmetic>(
    a: A,
    sent: Vec<ApiDischarge>,
    dataset: Dataset,
    anomaly: bool,
)
    requires
        call_ensures(training_dataset::<A>, (&a, &sent), dataset),
        forall|i: int|
            0 <= i < sent@.len() ==> (#[trigger] sent@[i]).anomaly_time is Some == anomaly,
    ensures
        dataset_targets(dataset).len() == dataset_records(dataset).len(),
        forall|i: int|
            0 <= i < dataset_targets(dataset).len() ==> #[trigger] dataset_targets(dataset)[i]
                == anomaly,
{
    let rows = dataset_records(dataset);
    let targets = dataset_targets(dataset);
    let discharges = choose|discharges: Seq<DischargeView>| #[trigger]
        are_internal_discharges(sent@, discharges) && are_records(
            a,
            discharges,
            extremes(all_signals(discharges)),
            rows,
            targets,
        );
    let params = extremes(all_signals(discharges));
    assert forall|i: int| 0 <= i < discharges.len() implies ((#[trigger] discharges[i]).class
        == DisruptionClass::Anomaly) == anomaly by {
        assert(sent@[i].anomaly_time is Some == anomaly);
    }
    every_record_is_full(a, discharges, params, rows, targets);
    targets_follow_classes(a, discharges, params, rows, targets, anomaly);
}

/// Discharges are turned into those with the class that goes with a time of an anomaly,
/// and the signals that are taken over, one by one.
pub proof fn discharges_are_labelled(sent: Vec<ApiDischarge>, discharges: Vec<Discharge>, i: int)
    requires
        call_ensures(internal_discharges, (&sent,), discharges),
        0 <= i < sent@.len(),
    ensures
        discharges@.len() == sent@.len(),
        sent@[i].anomaly_time is Some ==> discharges@[i].class == DisruptionClass::Anomaly,
        sent@[i].anomaly_time is None ==> discharges@[i].class == DisruptionClass::Normal,
        are_taken_over(sent@[i], discharges@[i].signals@),
{
    let all = discharge_views(discharges@);
    assert(all[i].class == signal_class(sent@[i]));
    assert(all[i].signals == discharges@[i].signals@);
    taken_over_by(sent@[i], all[i].signals);
}

/// A session begins exactly where none is in progress. It awaits as many discharges as
/// were announced and holds none, and this number is answered. A session in progress is
/// left as it is.
pub proof fn sessions_begin(request: StartTrainingRequest, reply: StartReply)
    ensures
        forall|training: &mut Option<TrainingSession>| #[trigger]
            call_ensures(start_training, (training, &request), reply) ==> match *training {
                Some(_) => reply is Unavailable && *final(training) == *training,
                None => {
                    &&& reply matches StartReply::Started(response)
                    &&& response.expected_discharges == request.total_discharges
                    &&& *final(training) matches Some(session)
                    &&& session.total_discharges == request.total_discharges
                    &&& session.discharges@.len() == 0
                },
            },
{
    assert forall|training: &mut Option<TrainingSession>| #[trigger]
        call_ensures(start_training, (training, &request), reply) implies match *training {
        Some(_) => reply is Unavailable && *final(training) == *training,
        None => {
            &&& reply matches StartReply::Started(response)
            &&& response.expected_discharges == request.total_discharges
            &&& *final(training) matches Some(session)
            &&& session.total_discharges == request.total_discharges
            &&& session.discharges@.len() == 0
        },
    } by {
        assert(progress(*final(training)) == started(
            progress(*training),
            request.total_discharges as nat,
        ));
    }
}

/// A discharge is taken exactly where a session is in progress that awaits more and the
/// ordinal is one more than the number of discharges that it holds. The session then holds
/// it behind the others, and its ordinal and the number announced are answered. With the
/// last one the session ends and gives back all its discharges in their order. What is
/// refused changes nothing.
pub proof fn discharges_are_taken_in_turn(
    ordinal: usize,
    discharge: ApiDischarge,
    reply: PushReply,
)
    ensures
        forall|training: &mut Option<TrainingSession>| #[trigger]
            call_ensures(push_discharge, (training, ordinal, discharge), reply)
                ==> match *training {
                None => reply is Unavailable && *final(training) is None,
                Some(before) => if ordinal != before.discharges@.len() + 1 || ordinal
                    > before.total_discharges {
                    reply is BadRequest && *final(training) == *training
                } else if ordinal < before.total_discharges {
                    &&& reply matches PushReply::Accepted(ack)
                    &&& ack.ordinal == ordinal
                    &&& ack.total_discharges == before.total_discharges
                    &&& *final(training) matches Some(after)
                    &&& after.total_discharges == before.total_discharges
                    &&& after.discharges@ == before.discharges@.push(discharge)
                } else {
                    &&& reply matches PushReply::Completed(ack, received)
                    &&& ack.ordinal == ordinal
                    &&& ack.total_discharges == before.total_discharges
                    &&& received@ == before.discharges@.push(discharge)
                    &&& *final(training) is None
                },
            },
{
    assert forall|training: &mut Option<TrainingSession>| #[trigger]
        call_ensures(
            push_discharge,
            (training, ordinal, discharge),
            reply,
        ) implies match *training {
        None => reply is Unavailable && *final(training) is None,
        Some(before) => if ordinal != before.discharges@.len() + 1 || ordinal
            > before.total_discharges {
            reply is BadRequest && *final(training) == *training
        } else if ordinal < before.total_discharges {
            &&& reply matches PushReply::Accepted(ack)
            &&& ack.ordinal == ordinal
            &&& ack.total_discharges == before.total_discharges
            &&& *final(training) matches Some(after)
            &&& after.total_discharges == before.total_discharges
            &&& after.discharges@ == before.discharges@.push(discharge)
        } else {
            &&& reply matches PushReply::Completed(ack, received)
            &&& ack.ordinal == ordinal
            &&& ack.total_discharges == before.total_discharges
            &&& received@ == before.discharges@.push(discharge)
            &&& *final(training) is None
        },
    } by {
        assert(progress(*final(training)) == pushed(
            progress(*training),
            ordinal as nat,
            discharge,
        ));
    }
}

/// A training is answered with success, the identifier that it was given, the fixed
/// measures 0.95, 0.12 and 0.94, and the time that it took.
pub proof fn trainings_are_answered(id: &str, time: u64, response: TrainingResponse)
    requires
        call_ensures(identified_response, (id, time), response),
    ensures
        response.status@ == "success"@,
        response.message@ == "Entrenamiento completado con éxito"@,
        response.training_id@ == "train_"@ + id@,
        response.execution_time_ms == time,
        is_nearest(response.metrics.accuracy, 95, 100),
        is_nearest(response.metrics.loss, 12, 100),
        is_nearest(response.metrics.f1_score, 94, 100),
{
    measures_are_nearest();
}

/// A pattern of a given exponent is nearest to hundredths where its fraction is.
proof fn nearest(x: u64, hundredths: int, e: nat)
    requires
        0x100 < e < 0x400,
        exponent_bits(x) == e && exponent_bits((x - 1) as u64) == e && exponent_bits(
            (x + 1) as u64,
        ) == e,
        fraction_bits((x - 1) as u64) == fraction_bits(x) - 1,
        fraction_bits((x + 1) as u64) == fraction_bits(x) + 1,
        0 < x < 0x7FF0_0000_0000_0000,
        ({
            let m = 0x10_0000_0000_0000 + fraction_bits(x);
            let unit = pow2((1075 - e) as nat);
            &&& (2 * m - 1) * 100 <= 2 * hundredths * unit
            &&& 2 * hundredths * unit <= (2 * m + 1) * 100
        }),
    ensures
        is_nearest(x, hundredths, 100),
{
    let m = 0x10_0000_0000_0000 + fraction_bits(x);
    let p = pow2((e - 1) as nat) as int;
    let unit = pow2((1075 - e) as nat) as int;
    lemma_pow2_adds((e - 1) as nat, (1075 - e) as nat);
    lemma_pow2_pos((e - 1) as nat);
    assert(pow2(1074) == p * unit);
    assert(exact(x) == m * p);
    assert(exact((x - 1) as u64) == (m - 1) * p);
    assert(exact((x + 1) as u64) == (m + 1) * p);
    let target = 2 * (hundredths * (p * unit));
    assert(((m - 1) * p) * 100 + (m * p) * 100 <= target) by (nonlinear_arith)
        requires
            target == 2 * (hundredths * (p * unit)),
            p > 0,
            (2 * m - 1) * 100 <= 2 * hundredths * unit,
    ;
    assert(target <= (m * p) * 100 + ((m + 1) * p) * 100) by (nonlinear_arith)
        requires
            target == 2 * (hundredths * (p * unit)),
            p > 0,
            2 * hundredths * unit <= (2 * m + 1) * 100,
    ;
}

/// Whether a pattern stands for the finite number nearest to a quotient: it is no further
/// from it than half the step to the next pattern.
pub open spec fn is_nearest(x: u64, numerator: int, denominator: int) -> bool {
    let target = numerator * pow2(1074);
    &&& exact((x - 1) as u64) * denominator + exact(x) * denominator <= 2 * target
    &&& 2 * target <= exact(x) * denominator + exact((x + 1) as u64) * denominator
}

/// A training is answered with an identifier of its own: `train_` and the form of a random
/// identifier.
pub proof fn trainings_are_identified(time: u64, response: TrainingResponse)
    requires
        call_ensures(training_response, (time,), response),
    ensures
        response.status@ == "success"@,
        response.message@ == "Entrenamiento completado con éxito"@,
        response.training_id@.len() == 42,
        response.training_id@.take(6) == seq!['t', 'r', 'a', 'i', 'n', '_'],
        is_random_identifier(response.training_id@.skip(6)),
        response.execution_time_ms == time,
        is_nearest(response.metrics.accuracy, 95, 100),
        is_nearest(response.metrics.loss, 12, 100),
        is_nearest(response.metrics.f1_score, 94, 100),
{
    let id = choose|id: Seq<char>| #[trigger]
        is_random_identifier(id) && response.training_id@ == "train_"@ + id;
    reveal_strlit("train_");
    assert(response.training_id@.take(6) =~= seq!['t', 'r', 'a', 'i', 'n', '_']);
    assert(response.training_id@.skip(6) =~= id);
    measures_are_nearest();
}

/// The fixed measures are the numbers nearest to 0.95, 0.12 and 0.94.
proof fn measures_are_nearest()
    ensures
        is_nearest(ACCURACY, 95, 100),
        is_nearest(LOSS, 12, 100),
        is_nearest(F1_SCORE, 94, 100),
{
    lemma2_to64();
    lemma_pow2_adds(32, 21);
    lemma_pow2_adds(32, 24);
    assert(pow2(53) == 0x20_0000_0000_0000);
    assert(pow2(56) == 0x100_0000_0000_0000);
    nearest(ACCURACY, 95, 0x3FE);
    nearest(LOSS, 12, 0x3FB);
    nearest(F1_SCORE, 94, 0x3FE);
}

} // verus!

//! Prediction: the dataset of one discharge, and the verdict over its windows.
use vstd::arithmetic::power2::{lemma2_to64, lemma_pow2_adds, lemma_pow2_pos, pow2};
use vstd::prelude::*;
use vstd::string::*;

use crate::api::{
    api_discharge_to_internal_signals, are_internal, are_taken_over, file_name_type,
    internal_by_names_and_values, is_internal, readable, same_sent_signals, signal_class,
    taken_over_by, with_class, Discharge as ApiDischarge,
};
use crate::arithmetic::{computes, is_consistent, is_number, is_over, Arithmetic, Operations};
use crate::dataset::{
    are_records, describes_windows, every_record_is_full, get_dataset,
    measurements_decide_records, parts_described_by, records_are_determined,
    same_records_one_by_one, targets_follow_classes, FEATURES,
};
use crate::doubles::{
    exact, exponent_bits, fraction_bits, is_nan, is_numeric, less, numbers_and_places, rank, HALF,
    ZERO,
};
use crate::signals::{
    all_signals, discharge_views, extremes, extremes_hold_least_and_greatest,
    gathered_extremes_cover, holds_greatest, holds_least, measurements_decide_extremes,
    same_measurements, Discharge, DischargeView, DisruptionClass, NormalizationParams, Signal,
    WINDOW_SIZE,
};
use crate::tables::{dataset_columns, dataset_records, dataset_targets, Dataset};

verus! {

/// What is known of one window: its features, whether it is anomalous, and how far
/// it lies from the border between the two classes.
pub struct WindowProperties {
    pub feature_values: Vec<u64>,
    pub prediction: String,
    pub distance: u64,
}

/// The answer to a request for a prediction.
pub struct PredictionResponse {
    pub prediction: String,
    pub confidence: u64,
    pub execution_time_ms: u64,
    pub model: String,
    pub window_size: usize,
    pub windows: Vec<WindowProperties>,
}

/// What is to be done about a request for a prediction.
pub enum PredictionStep {
    /// Nothing is left to be done but to answer.
    Answer(PredictionResponse),
    /// The model is to classify the records of the dataset.
    Classify(Dataset),
}

/// The name of a class.
pub open spec fn class_name(anomaly: bool) -> Seq<char> {
    if anomaly {
        "Anomaly"@
    } else {
        "Normal"@
    }
}

/// How many of the windows are anomalous.
pub open spec fn anomalies(predictions: Seq<bool>) -> nat
    decreases predictions.len(),
{
    if predictions.len() == 0 {
        0
    } else {
        anomalies(predictions.drop_last()) + (if predictions.last() {
            1nat
        } else {
            0nat
        })
    }
}

/// `r` is the share of anomalous windows, or zero where there are no windows.
pub open spec fn is_confidence<A: Arithmetic>(a: A, predictions: Seq<bool>, r: u64) -> bool {
    if predictions.len() == 0 {
        r == ZERO
    } else {
        exists|count: u64, total: u64| #[trigger]
            is_number(a, anomalies(predictions) as usize, count) && #[trigger] is_number(
                a,
                predictions.len() as usize,
                total,
            ) && is_over(a, count, total, r)
    }
}

/// Whether a discharge is anomalous of which the given share of windows is.
pub open spec fn is_anomalous(confidence: u64) -> bool {
    !is_nan(confidence) && rank(confidence) > rank(HALF)
}

/// `response` is the answer of a service without a model.
pub open spec fn is_unknown(response: PredictionResponse) -> bool {
    &&& response.prediction@ == "Unknown"@
    &&& response.confidence == ZERO
    &&& response.execution_time_ms == ZERO
    &&& response.model@ == "none"@
    &&& response.window_size == WINDOW_SIZE
    &&& response.windows@.len() == 0
}

/// `rows` and `targets` are the records and targets of a discharge whose class is
/// not known, normalized by the extremes of its own signals.
pub open spec fn are_prediction_records<A: Arithmetic>(
    a: A,
    sent: ApiDischarge,
    rows: Seq<Seq<u64>>,
    targets: Seq<bool>,
) -> bool {
    exists|signals: Seq<Signal>| #[trigger]
        are_internal(sent, signals) && are_records(
            a,
            seq![of_unknown_class(signals)],
            extremes(signals),
            rows,
            targets,
        )
}

/// The discharge of unknown class that has the given signals.
pub open spec fn of_unknown_class(signals: Seq<Signal>) -> DischargeView {
    DischargeView { class: DisruptionClass::Unknown, signals }
}

/// `window` holds what is known of a window.
pub open spec fn is_window(
    record: Seq<u64>,
    anomaly: bool,
    distance: u64,
    window: WindowProperties,
) -> bool {
    &&& window.feature_values@ == record
    &&& window.prediction@ == class_name(anomaly)
    &&& window.distance == distance
}

/// The answer of a service without a model.
pub fn unknown_response() -> (response: PredictionResponse)
    ensures
        is_unknown(response),
{
    PredictionResponse {
        prediction: String::from_str("Unknown"),
        confidence: ZERO,
        execution_time_ms: ZERO,
        model: String::from_str("none"),
        window_size: WINDOW_SIZE,
        windows: Vec::new(),
    }
}

/// The dataset of a discharge whose class is not known.
pub fn prediction_dataset<A: Arithmetic>(a: &A, sent: &ApiDischarge) -> (dataset: Dataset)
    ensures
        are_prediction_records(*a, *sent, dataset_records(dataset), dataset_targets(dataset)),
        dataset_columns(dataset) == FEATURES,
{
    let discharge = Discharge::new(
        DisruptionClass::Unknown,
        api_discharge_to_internal_signals(sent),
    );
    let ghost signals = discharge.signals@;
    let discharges = vec![discharge];
    let params = NormalizationParams::of_discharges(&discharges);
    proof {
        let views = discharge_views(discharges@);
        assert(views =~= seq![of_unknown_class(signals)]);
        gathered_extremes_cover(views);
        assert(views.drop_last() =~= Seq::<DischargeView>::empty());
        assert(all_signals(views.drop_last()) =~= Seq::<Signal>::empty());
        assert(all_signals(views) =~= signals);
        assert(are_internal(*sent, signals));
    }
    get_dataset(a, discharges, &params)
}

/// What is to be done about a request for a prediction: without a model it is
/// answered at once.
pub fn process_prediction_request<A: Arithmetic>(
    a: &A,
    discharge: &ApiDischarge,
    model_loaded: bool,
) -> (step: PredictionStep)
    ensures
        match step {
            PredictionStep::Answer(response) => !model_loaded && is_unknown(response),
            PredictionStep::Classify(dataset) => {
                &&& model_loaded
                &&& are_prediction_records(
                    *a,
                    *discharge,
                    dataset_records(dataset),
                    dataset_targets(dataset),
                )
                &&& dataset_columns(dataset) == FEATURES
            },
        },
{
    if !model_loaded {
        return PredictionStep::Answer(unknown_response());
    }
    PredictionStep::Classify(prediction_dataset(a, discharge))
}

/// How many of the windows are anomalous.
pub fn count_anomalies(predictions: &Vec<bool>) -> (count: usize)
    ensures
        count == anomalies(predictions@),
        count <= predictions@.len(),
{
    let mut count: usize = 0;
    let mut i: usize = 0;
    while i < predictions.len()
        invariant
            i <= predictions@.len(),
            count == anomalies(predictions@.take(i as int)),
            count <= i,
        decreases predictions@.len() - i,
    {
        if predictions[i] {
            count = count + 1;
        }
        i = i + 1;
        assert(predictions@.take(i as int).drop_last() =~= predictions@.take(i - 1));
    }
    assert(predictions@.take(i as int) =~= predictions@);
    count
}

/// The share of anomalous windows.
pub fn confidence<A: Arithmetic>(a: &A, predictions: &Vec<bool>) -> (r: u64)
    ensures
        is_confidence(*a, predictions@, r),
{
    let anomaly_count: usize = count_anomalies(predictions);
    let total: usize = predictions.len();
    if total > 0 {
        let count: u64 = a.number(anomaly_count);
        let whole: u64 = a.number(total);
        let r: u64 = a.over(count, whole);
        assert(is_number(*a, anomalies(predictions@) as usize, count) && is_number(
            *a,
            predictions@.len() as usize,
            whole,
        ));
        r
    } else {
        ZERO
    }
}

/// The verdict over a discharge: anomalous where more than half of its windows are.
pub fn verdict(confidence: u64) -> (prediction: String)
    ensures
        prediction@ == class_name(is_anomalous(confidence)),
{
    if less(HALF, confidence) {
        String::from_str("Anomaly")
    } else {
        String::from_str("Normal")
    }
}

/// What is known of each window.
pub fn window_properties(
    records: &Vec<Vec<u64>>,
    predictions: &Vec<bool>,
    distances: &Vec<u64>,
) -> (windows: Vec<WindowProperties>)
    requires
        predictions@.len() == records@.len(),
        distances@.len() == records@.len(),
    ensures
        windows@.len() == records@.len(),
        forall|i: int|
            0 <= i < records@.len() ==> is_window(
                records@[i]@,
                predictions@[i],
                distances@[i],
                #[trigger] windows@[i],
            ),
{
    let mut windows: Vec<WindowProperties> = Vec::new();
    let mut i: usize = 0;
    while i < records.len()
        invariant
            i <= records@.len(),
            predictions@.len() == records@.len(),
            distances@.len() == records@.len(),
            windows@.len() == i,
            forall|j: int|
                0 <= j < i ==> is_window(
                    records@[j]@,
                    predictions@[j],
                    distances@[j],
                    #[trigger] windows@[j],
                ),
        decreases records@.len() - i,
    {
        let feature_values = records[i].clone();
        assert(feature_values@ =~= records@[i as int]@);
        let prediction = if predictions[i] {
            String::from_str("Anomaly")
        } else {
            String::from_str("Normal")
        };
        windows.push(WindowProperties { feature_values, prediction, distance: distances[i] });
        i = i + 1;
    }
    windows
}

/// The answer to a request whose records the model has classified.
pub fn prediction_response<A: Arithmetic>(
    a: &A,
    records: &Vec<Vec<u64>>,
    predictions: &Vec<bool>,
    distances: &Vec<u64>,
    execution_time_ms: u64,
) -> (response: PredictionResponse)
    requires
        predictions@.len() == records@.len(),
        distances@.len() == records@.len(),
    ensures
        is_confidence(*a, predictions@, response.confidence),
        response.prediction@ == class_name(is_anomalous(response.confidence)),
        response.execution_time_ms == execution_time_ms,
        response.model@ == "svm"@,
        response.window_size == WINDOW_SIZE,
        response.windows@.len() == records@.len(),
        forall|i: int|
            0 <= i < records@.len() ==> is_window(
                records@[i]@,
                predictions@[i],
                distances@[i],
                #[trigger] response.windows@[i],
            ),
{
    let confidence: u64 = confidence(a, predictions);
    PredictionResponse {
        prediction: verdict(confidence),
        confidence,
        execution_time_ms,
        model: String::from_str("svm"),
        window_size: WINDOW_SIZE,
        windows: window_properties(records, predictions, distances),
    }
}

/// The records of a discharge whose class is not known have no anomaly as a target.
pub proof fn nothing_is_known_beforehand<A: Arithmetic>(
    a: A,
    sent: ApiDischarge,
    rows: Seq<Seq<u64>>,
    targets: Seq<bool>,
)
    requires
        are_prediction_records(a, sent, rows, targets),
    ensures
        targets.len() == rows.len(),
        forall|i: int| 0 <= i < targets.len() ==> !#[trigger] targets[i],
{
    let signals = choose|signals: Seq<Signal>| #[trigger]
        are_internal(sent, signals) && are_records(
            a,
            seq![of_unknown_class(signals)],
            extremes(signals),
            rows,
            targets,
        );
    let discharges = seq![of_unknown_class(signals)];
    every_record_is_full(a, discharges, extremes(signals), rows, targets);
    targets_follow_classes(a, discharges, extremes(signals), rows, targets, false);
}

/// A prediction goes by the names and values of the sent signals: identifier, times,
/// length and the time of an anomaly have no influence on the records.
pub proof fn prediction_goes_by_names_and_values<A: Arithmetic>(
    a: A,
    d: ApiDischarge,
    e: ApiDischarge,
    rows: Seq<Seq<u64>>,
    targets: Seq<bool>,
)
    requires
        same_sent_signals(d, e),
    ensures
        are_prediction_records(a, d, rows, targets) <==> are_prediction_records(
            a,
            e,
            rows,
            targets,
        ),
{
    if are_prediction_records(a, d, rows, targets) {
        same_prediction_records(a, d, e, rows, targets);
    }
    if are_prediction_records(a, e, rows, targets) {
        same_prediction_records(a, e, d, rows, targets);
    }
}

/// The records of a discharge are also those of another with the same signals.
proof fn same_prediction_records<A: Arithmetic>(
    a: A,
    d: ApiDischarge,
    e: ApiDischarge,
    rows: Seq<Seq<u64>>,
    targets: Seq<bool>,
)
    requires
        same_sent_signals(d, e),
        are_prediction_records(a, d, rows, targets),
    ensures
        are_prediction_records(a, e, rows, targets),
{
    let signals = choose|signals: Seq<Signal>| #[trigger]
        are_internal(d, signals) && are_records(
            a,
            seq![of_unknown_class(signals)],
            extremes(signals),
            rows,
            targets,
        );
    let others = with_class(signals, signal_class(e));
    internal_by_names_and_values(d, e, signals);
    same_signals_same_records(a, signals, others, rows, targets);
}

/// Signals of the same types and values have the same records.
proof fn same_signals_same_records<A: Arithmetic>(
    a: A,
    signals: Seq<Signal>,
    others: Seq<Signal>,
    rows: Seq<Seq<u64>>,
    targets: Seq<bool>,
)
    requires
        same_measurements(signals, others),
        are_records(a, seq![of_unknown_class(signals)], extremes(signals), rows, targets),
    ensures
        are_records(a, seq![of_unknown_class(others)], extremes(others), rows, targets),
{
    let params = extremes(signals);
    measurements_decide_extremes(signals, others);
    measurements_decide_records(a, of_unknown_class(signals), of_unknown_class(others), params);
    same_records_one_by_one(
        a,
        seq![of_unknown_class(signals)],
        seq![of_unknown_class(others)],
        params,
        rows,
        targets,
    );
}

/// Where equal arguments give equal results, discharges with signals of the same
/// names and values have the very same records and targets for a prediction.
pub proof fn prediction_is_determined<A: Arithmetic>(
    a: A,
    d: ApiDischarge,
    e: ApiDischarge,
    rows: Seq<Seq<u64>>,
    targets: Seq<bool>,
    other_rows: Seq<Seq<u64>>,
    other_targets: Seq<bool>,
)
    requires
        is_consistent(a),
        same_sent_signals(d, e),
        are_prediction_records(a, d, rows, targets),
        are_prediction_records(a, e, other_rows, other_targets),
    ensures
        rows == other_rows,
        targets == other_targets,
{
    same_prediction_records(a, d, e, rows, targets);
    let s = choose|s: Seq<Signal>| #[trigger]
        are_internal(e, s) && are_records(
            a,
            seq![of_unknown_class(s)],
            extremes(s),
            rows,
            targets,
        );
    let t = choose|t: Seq<Signal>| #[trigger]
        are_internal(e, t) && are_records(
            a,
            seq![of_unknown_class(t)],
            extremes(t),
            other_rows,
            other_targets,
        );
    let sent = readable(e.signals@);
    assert forall|i: int| 0 <= i < s.len() implies (#[trigger] s[i]).signal_type
        == t[i].signal_type && s[i].values@ == t[i].values@ && s[i].min == t[i].min && s[i].max
        == t[i].max by {
        let kind = file_name_type(sent[i].filename@)->Ok_0;
        assert(is_internal(sent[i], signal_class(e), kind, s[i]));
        assert(is_internal(sent[i], signal_class(e), kind, t[i]));
    }
    same_signals_same_records(a, s, t, rows, targets);
    records_are_determined(
        a,
        seq![of_unknown_class(t)],
        extremes(t),
        rows,
        targets,
        other_rows,
        other_targets,
    );
}

/// There are never more anomalous windows than windows, and a discharge all or
/// none of whose windows are anomalous has all or none counted.
pub proof fn anomalies_are_windows(predictions: Seq<bool>)
    ensures
        anomalies(predictions) <= predictions.len(),
        (forall|i: int| 0 <= i < predictions.len() ==> #[trigger] predictions[i])
            <==> anomalies(predictions) == predictions.len(),
        (forall|i: int| 0 <= i < predictions.len() ==> !#[trigger] predictions[i])
            <==> anomalies(predictions) == 0,
    decreases predictions.len(),
{
    if predictions.len() > 0 {
        let rest = predictions.drop_last();
        let last = predictions.len() - 1;
        anomalies_are_windows(rest);
        if forall|i: int| 0 <= i < rest.len() ==> #[trigger] rest[i] {
            assert forall|i: int| 0 <= i < last implies #[trigger] predictions[i] by {
                assert(rest[i]);
            }
        } else {
            let i = choose|i: int| 0 <= i < rest.len() && !#[trigger] rest[i];
            assert(!predictions[i]);
        }
        if forall|i: int| 0 <= i < rest.len() ==> !#[trigger] rest[i] {
            assert forall|i: int| 0 <= i < last implies !#[trigger] predictions[i] by {
                assert(!rest[i]);
            }
        } else {
            let i = choose|i: int| 0 <= i < rest.len() && #[trigger] rest[i];
            assert(predictions[i]);
        }
        assert(predictions[last] == predictions.last());
    }
}

/// The windows that are counted are those that are anomalous, and the anomalous windows
/// of two lists put one after the other are those of both.
pub proof fn anomalies_are_counted(s: Seq<bool>, t: Seq<bool>)
    ensures
        anomalies(s) == s.filter(|p: bool| p).len(),
        anomalies(s + t) == anomalies(s) + anomalies(t),
        anomalies(seq![true]) == 1,
        anomalies(seq![false]) == 0,
    decreases s.len() + t.len(),
{
    reveal(Seq::filter);
    let yes = seq![true];
    let no = seq![false];
    assert(anomalies(yes.drop_last()) == 0);
    assert(anomalies(no.drop_last()) == 0);
    if s.len() > 0 {
        anomalies_are_counted(s.drop_last(), Seq::empty());
    }
    if t.len() == 0 {
        assert(s + t =~= s);
    } else {
        anomalies_are_counted(s, t.drop_last());
        assert((s + t).drop_last() =~= s + t.drop_last());
        assert((s + t).last() == t.last());
    }
}

/// The count is the number of places whose prediction is an anomaly.
pub proof fn count_is_of_anomalies(predictions: Vec<bool>, count: usize)
    requires
        call_ensures(count_anomalies, (&predictions,), count),
    ensures
        count == predictions@.filter(|p: bool| p).len(),
{
    anomalies_are_counted(predictions@, Seq::empty());
}

/// What it is to be the confidence.
pub proof fn confidence_by<A: Arithmetic>(
    a: A,
    f: Operations,
    predictions: Seq<bool>,
    r: u64,
)
    requires
        computes(a, f),
        is_confidence(a, predictions, r),
    ensures
        predictions.len() == 0 ==> r == 0,
        predictions.len() > 0 ==> r == (f.over)(
            (f.number)(predictions.filter(|p: bool| p).len() as usize),
            (f.number)(predictions.len() as usize),
        ),
{
    anomalies_are_counted(predictions, Seq::empty());
    if predictions.len() > 0 {
        let (count, total) = choose|count: u64, total: u64| #[trigger]
            is_number(a, anomalies(predictions) as usize, count) && #[trigger] is_number(
                a,
                predictions.len() as usize,
                total,
            ) && is_over(a, count, total, r);
        assert(call_ensures(A::number, (&a, anomalies(predictions) as usize), count));
        assert(call_ensures(A::number, (&a, predictions.len() as usize), total));
        assert(call_ensures(A::over, (&a, count, total), r));
    }
}

/// The confidence is the number of anomalous windows over the number of windows, or zero
/// without windows.
pub proof fn confidence_is_a_share<A: Arithmetic>(
    a: A,
    f: Operations,
    predictions: Vec<bool>,
    r: u64,
)
    requires
        computes(a, f),
        call_ensures(confidence::<A>, (&a, &predictions), r),
    ensures
        predictions@.len() == 0 ==> r == 0,
        predictions@.len() > 0 ==> r == (f.over)(
            (f.number)(predictions@.filter(|p: bool| p).len() as usize),
            (f.number)(predictions@.len() as usize),
        ),
{
    confidence_by(a, f, predictions@, r);
}

/// The pattern of one half stands for one half: 2 to the power of -1 in units of 2 to the
/// power of -1074.
proof fn half_is_one_half()
    ensures
        exact(HALF) == pow2(1073),
        is_numeric(HALF),
{
    lemma_pow2_adds(52, 1021);
    lemma_pow2_adds(32, 20);
    lemma2_to64();
    assert(pow2(52) == 0x10_0000_0000_0000);
    assert(exponent_bits(HALF) == 1022 && fraction_bits(HALF) == 0);
}

/// Whether a confidence makes an anomaly goes by whether it is more than one half.
pub proof fn anomalous_is_more_than_half(confidence: u64)
    ensures
        is_anomalous(confidence) <==> is_numeric(confidence) && exact(confidence) > pow2(1073),
{
    half_is_one_half();
    numbers_and_places(HALF, confidence);
}

/// The verdict is an anomaly where the confidence is more than one half, and normal
/// otherwise.
pub proof fn verdict_is_by_more_than_half(confidence: u64, prediction: String)
    requires
        call_ensures(verdict, (confidence,), prediction),
    ensures
        is_numeric(confidence) && exact(confidence) > pow2(1073) ==> prediction@ == "Anomaly"@,
        !(is_numeric(confidence) && exact(confidence) > pow2(1073)) ==> prediction@ == "Normal"@,
{
    anomalous_is_more_than_half(confidence);
}

/// The windows of an answer are told in their order: of each its record, its class and its
/// distance.
pub proof fn windows_are_told(
    records: Vec<Vec<u64>>,
    predictions: Vec<bool>,
    distances: Vec<u64>,
    windows: Vec<WindowProperties>,
    i: int,
)
    requires
        call_ensures(window_properties, (&records, &predictions, &distances), windows),
        0 <= i < records@.len(),
    ensures
        windows@.len() == records@.len(),
        windows@[i].feature_values@ == records@[i]@,
        windows@[i].distance == distances@[i],
        predictions@[i] ==> windows@[i].prediction@ == "Anomaly"@,
        !predictions@[i] ==> windows@[i].prediction@ == "Normal"@,
{
    assert(is_window(records@[i]@, predictions@[i], distances@[i], windows@[i]));
}

/// An answer tells the share of anomalous windows, calls the discharge an anomaly where
/// this is more than one half, and tells of every window.
pub proof fn answers_tell_shares_and_windows<A: Arithmetic>(
    a: A,
    f: Operations,
    records: Vec<Vec<u64>>,
    predictions: Vec<bool>,
    distances: Vec<u64>,
    time: u64,
    response: PredictionResponse,
)
    requires
        computes(a, f),
        call_ensures(
            prediction_response::<A>,
            (&a, &records, &predictions, &distances, time),
            response,
        ),
    ensures
        predictions@.len() == 0 ==> response.confidence == 0,
        predictions@.len() > 0 ==> response.confidence == (f.over)(
            (f.number)(predictions@.filter(|p: bool| p).len() as usize),
            (f.number)(predictions@.len() as usize),
        ),
        is_numeric(response.confidence) && exact(response.confidence) > pow2(1073)
            ==> response.prediction@ == "Anomaly"@,
        !(is_numeric(response.confidence) && exact(response.confidence) > pow2(1073))
            ==> response.prediction@ == "Normal"@,
        response.execution_time_ms == time,
        response.model@ == "svm"@,
        response.window_size == 16,
        response.windows@.len() == records@.len(),
        forall|i: int|
            0 <= i < records@.len() ==> {
                &&& (#[trigger] response.windows@[i]).feature_values@ == records@[i]@
                &&& response.windows@[i].distance == distances@[i]
                &&& predictions@[i] ==> response.windows@[i].prediction@ == "Anomaly"@
                &&& !predictions@[i] ==> response.windows@[i].prediction@ == "Normal"@
            },
{
    confidence_by(a, f, predictions@, response.confidence);
    anomalous_is_more_than_half(response.confidence);
    assert forall|i: int| 0 <= i < records@.len() implies {
        &&& (#[trigger] response.windows@[i]).feature_values@ == records@[i]@
        &&& response.windows@[i].distance == distances@[i]
        &&& predictions@[i] ==> response.windows@[i].prediction@ == "Anomaly"@
        &&& !predictions@[i] ==> response.windows@[i].prediction@ == "Normal"@
    } by {
        assert(is_window(
            records@[i]@,
            predictions@[i],
            distances@[i],
            response.windows@[i],
        ));
    }
}

/// A discharge is called an anomaly exactly where more than half of its windows are
/// anomalous, where the quotient of two numbers is more than one half exactly where twice
/// the first is more than the second. Doubles divide so up to 2 to the power of 53, so no
/// more windows than that are spoken of.
pub proof fn majority_decides<A: Arithmetic>(
    a: A,
    f: Operations,
    records: Vec<Vec<u64>>,
    predictions: Vec<bool>,
    distances: Vec<u64>,
    time: u64,
    response: PredictionResponse,
)
    requires
        computes(a, f),
        predictions@.len() <= 0x20_0000_0000_0000,
        forall|m: usize, n: usize|
            m <= n <= 0x20_0000_0000_0000 && n > 0 ==> {
                let share = #[trigger] (f.over)((f.number)(m), (f.number)(n));
                is_numeric(share) && exact(share) > pow2(1073) <==> 2 * m > n
            },
        call_ensures(
            prediction_response::<A>,
            (&a, &records, &predictions, &distances, time),
            response,
        ),
    ensures
        2 * predictions@.filter(|p: bool| p).len() > predictions@.len() ==> response.prediction@
            == "Anomaly"@,
        2 * predictions@.filter(|p: bool| p).len() <= predictions@.len() ==> response.prediction@
            == "Normal"@,
{
    answers_tell_shares_and_windows(a, f, records, predictions, distances, time, response);
    anomalies_are_counted(predictions@, Seq::empty());
    anomalies_are_windows(predictions@);
    if predictions@.len() == 0 {
        assert(exact(0) == 0);
        lemma_pow2_pos(1073);
    } else {
        assert(predictions.len() == predictions@.len());
        let m = predictions@.filter(|p: bool| p).len() as usize;
        let n = predictions@.len() as usize;
        let share = (f.over)((f.number)(m), (f.number)(n));
        assert(is_numeric(share) && exact(share) > pow2(1073) <==> 2 * m > n);
    }
}

/// Without a model the answer is that nothing is known.
pub proof fn nothing_is_known_without_a_model(response: PredictionResponse)
    requires
        call_ensures(unknown_response, (), response),
    ensures
        response.prediction@ == "Unknown"@,
        response.confidence == 0,
        response.execution_time_ms == 0,
        response.model@ == "none"@,
        response.window_size == 16,
        response.windows@.len() == 0,
{
}

/// What it is to be the records of a discharge whose class is not known: they describe
/// the windows of the signals that are taken over of it, normalized by the least and the
/// greatest of these, and no target is an anomaly.
pub proof fn prediction_described_by<A: Arithmetic>(
    a: A,
    f: Operations,
    sent: ApiDischarge,
    rows: Seq<Seq<u64>>,
    targets: Seq<bool>,
) -> (r: (Seq<Signal>, Map<u32, u64>, Map<u32, u64>))
    requires
        computes(a, f),
        are_prediction_records(a, sent, rows, targets),
    ensures
        are_taken_over(sent, r.0),
        forall|kind: u32| #[trigger] holds_least(r.1, r.0, kind),
        forall|kind: u32| #[trigger] holds_greatest(r.2, r.0, kind),
        describes_windows(f, r.0, r.1, r.2, rows),
        targets.len() == rows.len(),
        forall|i: int| 0 <= i < targets.len() ==> !#[trigger] targets[i],
{
    let signals = choose|signals: Seq<Signal>| #[trigger]
        are_internal(sent, signals) && are_records(
            a,
            seq![of_unknown_class(signals)],
            extremes(signals),
            rows,
            targets,
        );
    let discharges = seq![of_unknown_class(signals)];
    let params = extremes(signals);
    let parts = parts_described_by(a, f, discharges, params, rows, targets);
    parts.lemma_flatten_one_element();
    assert(rows == parts[0]);
    taken_over_by(sent, signals);
    assert forall|kind: u32| #[trigger] holds_least(params.low, signals, kind) by {
        extremes_hold_least_and_greatest(signals, kind);
    }
    assert forall|kind: u32| #[trigger] holds_greatest(params.high, signals, kind) by {
        extremes_hold_least_and_greatest(signals, kind);
    }
    nothing_is_known_beforehand(a, sent, rows, targets);
    (signals, params.low, params.high)
}

/// The dataset for a prediction describes the windows of the signals that are taken over
/// of the discharge, normalized by the least and the greatest of these.
pub proof fn prediction_describes_windows<A: Arithmetic>(
    a: A,
    f: Operations,
    sent: ApiDischarge,
    dataset: Dataset,
) -> (r: (Seq<Signal>, Map<u32, u64>, Map<u32, u64>))
    requires
        computes(a, f),
        call_ensures(prediction_dataset::<A>, (&a, &sent), dataset),
    ensures
        are_taken_over(sent, r.0),
        forall|kind: u32| #[trigger] holds_least(r.1, r.0, kind),
        forall|kind: u32| #[trigger] holds_greatest(r.2, r.0, kind),
        describes_windows(f, r.0, r.1, r.2, dataset_records(dataset)),
        dataset_columns(dataset) == 14,
        dataset_targets(dataset).len() == dataset_records(dataset).len(),
        forall|i: int|
            0 <= i < dataset_targets(dataset).len() ==> !#[trigger] dataset_targets(dataset)[i],
{
    prediction_described_by(a, f, sent, dataset_records(dataset), dataset_targets(dataset))
}

/// A request is answered at once exactly where there is no model, and then nothing is
/// known. Otherwise the dataset is to be classified that describes the windows of the
/// discharge.
pub proof fn requests_are_answered_or_classified<A: Arithmetic>(
    a: A,
    f: Operations,
    sent: ApiDischarge,
    model_loaded: bool,
    step: PredictionStep,
) -> (r: (Seq<Signal>, Map<u32, u64>, Map<u32, u64>))
    requires
        computes(a, f),
        call_ensures(process_prediction_request::<A>, (&a, &sent, model_loaded), step),
    ensures
        !model_loaded ==> {
            &&& step matches PredictionStep::Answer(response)
            &&& response.prediction@ == "Unknown"@
            &&& response.confidence == 0
            &&& response.execution_time_ms == 0
            &&& response.model@ == "none"@
            &&& response.window_size == 16
            &&& response.windows@.len() == 0
        },
        model_loaded ==> {
            &&& step matches PredictionStep::Classify(dataset)
            &&& are_taken_over(sent, r.0)
            &&& forall|kind: u32| #[trigger] holds_least(r.1, r.0, kind)
            &&& forall|kind: u32| #[trigger] holds_greatest(r.2, r.0, kind)
            &&& describes_windows(f, r.0, r.1, r.2, dataset_records(dataset))
            &&& dataset_columns(dataset) == 14
            &&& dataset_targets(dataset).len() == dataset_records(dataset).len()
            &&& forall|i: int|
                0 <= i < dataset_targets(dataset).len() ==> !#[trigger] dataset_targets(dataset)[i]
        },
{
    match step {
        PredictionStep::Answer(_) => (Seq::empty(), Map::empty(), Map::empty()),
        PredictionStep::Classify(dataset) => prediction_described_by(
            a,
            f,
            sent,
            dataset_records(dataset),
            dataset_targets(dataset),
        ),
    }
}

} // verus!

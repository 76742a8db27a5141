//! The feature matrix of a set of discharges: one record for each window, with
//! the means of all signal types first and their frequency deviations behind.
use std::collections::HashMap;
use vstd::prelude::*;

use crate::arithmetic::{computes, is_consistent, Arithmetic, Operations};
use crate::doubles::ZERO;
use crate::signals::{
    all_signals, are_features, are_normalized, are_scaled, discharge_views, extremes,
    features_are_determined, features_by, have_different_types, is_order, is_reordered,
    keys_tell_types_apart, order_of_signals_leaves_extremes, same_measurements,
    scaling_is_determined, values_scaled_by, Discharge, DischargeView, DisruptionClass, Extremes,
    FeatureType, NormalizationParams, Signal, SignalType, WINDOW_SIZE,
};
use crate::tables::{
    cut, dataset_columns, dataset_new, dataset_records, dataset_targets, matrix_from_elements,
    targets_from_vec, views, Dataset,
};

verus! {

broadcast use vstd::std_specs::hash::group_hash_axioms;

/// How many features a record has: each feature of each signal type.
pub const FEATURES: usize = 14;

/// The features of one signal, a value for each of its windows.
pub struct TypeFeatures {
    pub signal_type: SignalType,
    pub means: Vec<u64>,
    pub deviations: Vec<u64>,
}

/// What the features of one signal amount to.
pub struct FeaturesView {
    pub signal_type: SignalType,
    pub means: Seq<u64>,
    pub deviations: Seq<u64>,
}

impl View for TypeFeatures {
    type V = FeaturesView;

    open spec fn view(&self) -> FeaturesView {
        FeaturesView {
            signal_type: self.signal_type,
            means: self.means@,
            deviations: self.deviations@,
        }
    }
}

/// What the features of signals amount to, one by one.
pub open spec fn feature_views(features: Seq<TypeFeatures>) -> Seq<FeaturesView> {
    features.map_values(|one: TypeFeatures| one@)
}

/// The place of the last features of the type numbered `kind`, or -1 where there are none.
pub open spec fn latest(features: Seq<FeaturesView>, kind: u32) -> int
    decreases features.len(),
{
    if features.len() == 0 {
        -1
    } else if features.last().signal_type.key() == kind {
        features.len() - 1
    } else {
        latest(features.drop_last(), kind)
    }
}

/// How many windows the first signal has that has any.
pub open spec fn window_count(features: Seq<FeaturesView>) -> nat
    decreases features.len(),
{
    if features.len() == 0 {
        0
    } else {
        let count = window_count(features.drop_last());
        if count == 0 {
            features.last().means.len()
        } else {
            count
        }
    }
}

/// The value for the window `w`, or zero where there is none.
pub open spec fn at_window(values: Seq<u64>, w: int) -> u64 {
    if w < values.len() {
        values[w]
    } else {
        ZERO
    }
}

/// The mean in the window `w` of the last signal of the type numbered `kind`, or
/// zero where there is no such signal or no such window.
pub open spec fn mean_at(features: Seq<FeaturesView>, kind: u32, w: int) -> u64 {
    let i = latest(features, kind);
    if i < 0 {
        ZERO
    } else {
        at_window(features[i].means, w)
    }
}

/// The frequency deviation in the window `w` of the last signal of the type
/// numbered `kind`, or zero where there is no such signal or no such window.
pub open spec fn deviation_at(features: Seq<FeaturesView>, kind: u32, w: int) -> u64 {
    let i = latest(features, kind);
    if i < 0 {
        ZERO
    } else {
        at_window(features[i].deviations, w)
    }
}

/// The record of the window `w`: the means of the seven signal types in their
/// order, then their frequency deviations in the same order.
pub open spec fn record(features: Seq<FeaturesView>, w: int) -> Seq<u64> {
    Seq::new(
        FEATURES as nat,
        |c: int|
            if c < 7 {
                mean_at(features, (c + 1) as u32, w)
            } else {
                deviation_at(features, (c - 6) as u32, w)
            },
    )
}

/// The records of all windows of a discharge.
pub open spec fn records(features: Seq<FeaturesView>) -> Seq<Seq<u64>> {
    Seq::new(window_count(features), |w: int| record(features, w))
}

/// The value for the window `w`, or zero where there is none.
fn value_at(values: &Vec<u64>, w: usize) -> (r: u64)
    ensures
        r == at_window(values@, w as int),
{
    if w < values.len() {
        values[w]
    } else {
        ZERO
    }
}

/// `by_type` holds for each signal type the place of its last features.
pub open spec fn indexes(by_type: Map<u32, usize>, features: Seq<FeaturesView>) -> bool {
    forall|kind: u32| #[trigger] indexes_kind(by_type, features, kind)
}

/// `by_type` holds for the signal type numbered `kind` the place of its last features.
pub open spec fn indexes_kind(
    by_type: Map<u32, usize>,
    features: Seq<FeaturesView>,
    kind: u32,
) -> bool {
    let place = latest(features, kind);
    &&& -1 <= place < features.len()
    &&& by_type.contains_key(kind) == (place >= 0)
    &&& place >= 0 ==> by_type[kind] == place
}

/// The place of the last features of each signal type.
fn index_by_type(features: &Vec<TypeFeatures>) -> (by_type: HashMap<u32, usize>)
    ensures
        indexes(by_type@, feature_views(features@)),
{
    let mut by_type: HashMap<u32, usize> = HashMap::new();
    let mut i: usize = 0;
    while i < features.len()
        invariant
            i <= features@.len(),
            indexes(by_type@, feature_views(features@).take(i as int)),
        decreases features@.len() - i,
    {
        let kind: u32 = features[i].signal_type.code();
        let ghost before = by_type@;
        by_type.insert(kind, i);
        i = i + 1;
        proof {
            let seen = feature_views(features@).take(i as int);
            assert(seen.drop_last() =~= feature_views(features@).take(i - 1));
            assert forall|k: u32| #[trigger] indexes_kind(by_type@, seen, k) by {
                assert(indexes_kind(before, seen.drop_last(), k));
            }
        }
    }
    assert(feature_views(features@).take(i as int) =~= feature_views(features@));
    by_type
}

/// How many windows the first signal has that has any.
fn count_windows(features: &Vec<TypeFeatures>) -> (windows: usize)
    ensures
        windows == window_count(feature_views(features@)),
{
    let mut windows: usize = 0;
    let mut i: usize = 0;
    while i < features.len()
        invariant
            i <= features@.len(),
            windows == window_count(feature_views(features@).take(i as int)),
        decreases features@.len() - i,
    {
        if windows == 0 && features[i].means.len() > 0 {
            windows = features[i].means.len();
        }
        i = i + 1;
        assert(feature_views(features@).take(i as int).drop_last() =~= feature_views(
            features@,
        ).take(i - 1));
    }
    assert(feature_views(features@).take(i as int) =~= feature_views(features@));
    windows
}

/// The record of the window `w`.
fn window_record(
    features: &Vec<TypeFeatures>,
    by_type: &HashMap<u32, usize>,
    w: usize,
) -> (row: Vec<u64>)
    requires
        indexes(by_type@, feature_views(features@)),
    ensures
        row@ == record(feature_views(features@), w as int),
{
    let ghost whole = record(feature_views(features@), w as int);
    let mut row: Vec<u64> = Vec::new();
    let mut kind: u32 = 1;
    while kind <= 7
        invariant
            1 <= kind <= 8,
            indexes(by_type@, feature_views(features@)),
            whole == record(feature_views(features@), w as int),
            row@ == whole.take(kind - 1),
        decreases 8 - kind,
    {
        assert(indexes_kind(by_type@, feature_views(features@), kind));
        let value: u64 = match by_type.get(&kind) {
            Some(place) => value_at(&features[*place].means, w),
            None => ZERO,
        };
        assert(value == whole[kind - 1]);
        row.push(value);
        kind = kind + 1;
        assert(row@ =~= whole.take(kind - 1));
    }
    kind = 1;
    while kind <= 7
        invariant
            1 <= kind <= 8,
            indexes(by_type@, feature_views(features@)),
            whole == record(feature_views(features@), w as int),
            row@ == whole.take(kind + 6),
        decreases 8 - kind,
    {
        assert(indexes_kind(by_type@, feature_views(features@), kind));
        let value: u64 = match by_type.get(&kind) {
            Some(place) => value_at(&features[*place].deviations, w),
            None => ZERO,
        };
        assert(value == whole[kind + 6]);
        row.push(value);
        kind = kind + 1;
        assert(row@ =~= whole.take(kind + 6));
    }
    assert(row@ =~= whole);
    row
}

/// The records of all windows of a discharge, from the features of its signals.
/// The last signal of a type stands for the type.
pub fn window_records(features: &Vec<TypeFeatures>) -> (rows: Vec<Vec<u64>>)
    ensures
        views(rows@) == records(feature_views(features@)),
{
    let by_type = index_by_type(features);
    let windows: usize = count_windows(features);
    let mut rows: Vec<Vec<u64>> = Vec::new();
    let mut w: usize = 0;
    while w < windows
        invariant
            w <= windows,
            indexes(by_type@, feature_views(features@)),
            rows@.len() == w,
            forall|v: int|
                0 <= v < w ==> (#[trigger] rows@[v])@ == record(feature_views(features@), v),
        decreases windows - w,
    {
        rows.push(window_record(features, &by_type, w));
        w = w + 1;
    }
    assert(views(rows@) =~= records(feature_views(features@)));
    rows
}

/// `features` are those of `signal`, normalized by `params`.
pub open spec fn features_of<A: Arithmetic>(
    a: A,
    signal: Signal,
    params: Extremes,
    features: FeaturesView,
) -> bool {
    let kind = signal.signal_type.key();
    &&& features.signal_type == signal.signal_type
    &&& exists|values: Seq<u64>| #[trigger]
        are_scaled(a, signal.values@, params.low[kind], params.high[kind], values)
            && are_features(
            a,
            values,
            WINDOW_SIZE as nat,
            features.means,
            features.deviations,
        )
}

/// `features` are those of `signals`, in the same order.
pub open spec fn all_features_of<A: Arithmetic>(
    a: A,
    signals: Seq<Signal>,
    params: Extremes,
    features: Seq<FeaturesView>,
) -> bool {
    &&& features.len() == signals.len()
    &&& forall|i: int|
        0 <= i < signals.len() ==> features_of(a, signals[i], params, #[trigger] features[i])
}

/// `rows` are the records of `discharge`.
pub open spec fn are_records_of<A: Arithmetic>(
    a: A,
    discharge: DischargeView,
    params: Extremes,
    rows: Seq<Seq<u64>>,
) -> bool {
    exists|features: Seq<FeaturesView>| #[trigger]
        all_features_of(a, discharge.signals, params, features) && rows == records(features)
}

/// The rows of all parts, one part after the other.
pub open spec fn joined(parts: Seq<Seq<Seq<u64>>>) -> Seq<Seq<u64>>
    decreases parts.len(),
{
    if parts.len() == 0 {
        Seq::empty()
    } else {
        joined(parts.drop_last()) + parts.last()
    }
}

/// For each row of each part whether the discharge in its place is an anomaly.
pub open spec fn labels(discharges: Seq<DischargeView>, parts: Seq<Seq<Seq<u64>>>) -> Seq<bool>
    decreases parts.len(),
{
    if parts.len() == 0 {
        Seq::empty()
    } else {
        labels(discharges, parts.drop_last()) + Seq::new(
            parts.last().len(),
            |w: int| discharges[parts.len() - 1].class == DisruptionClass::Anomaly,
        )
    }
}

/// Each of `parts` holds the records of the discharge in its place.
pub open spec fn are_parts<A: Arithmetic>(
    a: A,
    discharges: Seq<DischargeView>,
    params: Extremes,
    parts: Seq<Seq<Seq<u64>>>,
) -> bool {
    &&& parts.len() == discharges.len()
    &&& forall|i: int|
        0 <= i < discharges.len() ==> are_records_of(a, discharges[i], params, #[trigger] parts[i])
}

/// `rows` are the records of all of `discharges`, and `targets` say of each whether
/// its discharge is an anomaly.
pub open spec fn are_records<A: Arithmetic>(
    a: A,
    discharges: Seq<DischargeView>,
    params: Extremes,
    rows: Seq<Seq<u64>>,
    targets: Seq<bool>,
) -> bool {
    exists|parts: Seq<Seq<Seq<u64>>>| #[trigger]
        are_parts(a, discharges, params, parts) && rows == joined(parts) && targets == labels(
            discharges,
            parts,
        )
}

/// The features of `signals`, normalized by `params`.
pub fn get_all_features<A: Arithmetic>(
    a: &A,
    signals: &Vec<Signal>,
    params: &NormalizationParams,
) -> (features: Vec<TypeFeatures>)
    requires
        params@.covers(signals@),
    ensures
        all_features_of(*a, signals@, params@, feature_views(features@)),
{
    let normalized = Signal::normalize_all(a, signals, params);
    let mut features: Vec<TypeFeatures> = Vec::new();
    let mut i: usize = 0;
    while i < normalized.len()
        invariant
            i <= normalized@.len(),
            are_normalized(*a, signals@, params@, normalized@),
            features@.len() == i,
            forall|j: int|
                0 <= j < i ==> features_of(
                    *a,
                    signals@[j],
                    params@,
                    #[trigger] feature_views(features@)[j],
                ),
        decreases normalized@.len() - i,
    {
        let (means, deviations) = normalized[i].get_features(a, WINDOW_SIZE);
        let one = TypeFeatures {
            signal_type: normalized[i].signal_type,
            means: means.values,
            deviations: deviations.values,
        };
        proof {
            let signal = signals@[i as int];
            let kind = signal.signal_type.key();
            assert(signal.normalizes_to(*a, params@, normalized@[i as int]));
            assert(are_scaled(
                *a,
                signal.values@,
                params@.low[kind],
                params@.high[kind],
                normalized@[i as int].values@,
            ));
            assert(features_of(*a, signal, params@, one@));
            assert(feature_views(features@.push(one)) =~= feature_views(features@).push(one@));
        }
        features.push(one);
        i = i + 1;
    }
    features
}

/// The records of a set of discharges, with a target for each.
pub struct LabelledRecords {
    pub rows: Vec<Vec<u64>>,
    pub targets: Vec<bool>,
}

/// The records of all windows of `discharges`, normalized by `params`.
pub fn get_records<A: Arithmetic>(
    a: &A,
    discharges: &Vec<Discharge>,
    params: &NormalizationParams,
) -> (r: LabelledRecords)
    requires
        forall|i: int|
            0 <= i < discharges@.len() ==> params@.covers((#[trigger] discharges@[i]).signals@),
    ensures
        are_records(*a, discharge_views(discharges@), params@, views(r.rows@), r.targets@),
{
    let mut rows: Vec<Vec<u64>> = Vec::new();
    let mut targets: Vec<bool> = Vec::new();
    let ghost mut parts: Seq<Seq<Seq<u64>>> = Seq::empty();
    let mut i: usize = 0;
    assert(views(rows@) =~= joined(parts));
    assert(targets@ =~= labels(discharge_views(discharges@), parts));
    while i < discharges.len()
        invariant
            i <= discharges@.len(),
            forall|j: int|
                0 <= j < discharges@.len() ==> params@.covers((#[trigger] discharges@[j]).signals@),
            are_parts(*a, discharge_views(discharges@).take(i as int), params@, parts),
            views(rows@) == joined(parts),
            targets@ == labels(discharge_views(discharges@), parts),
        decreases discharges@.len() - i,
    {
        let features = get_all_features(a, &discharges[i].signals, params);
        let mut part = window_records(&features);
        let is_anomaly = discharges[i].class == DisruptionClass::Anomaly;
        let windows: usize = part.len();
        let ghost part_rows = views(part@);
        let ghost before = rows@;
        proof {
            let seen = discharge_views(discharges@).take(i as int);
            let now = discharge_views(discharges@).take(i + 1);
            let all = parts.push(part_rows);
            assert(all.drop_last() =~= parts);
            assert(all_features_of(
                *a,
                discharges@[i as int]@.signals,
                params@,
                feature_views(features@),
            ));
            assert(are_records_of(*a, discharges@[i as int]@, params@, part_rows));
            assert forall|j: int| 0 <= j < now.len() implies are_records_of(
                *a,
                now[j],
                params@,
                #[trigger] all[j],
            ) by {
                if j < seen.len() {
                    assert(now[j] == seen[j]);
                    assert(all[j] == parts[j]);
                }
            }
            parts = all;
        }
        rows.append(&mut part);
        assert(views(rows@) =~= views(before) + part_rows);
        let ghost done = targets@;
        let mut w: usize = 0;
        while w < windows
            invariant
                w <= windows,
                targets@ == done + Seq::new(w as nat, |v: int| is_anomaly),
            decreases windows - w,
        {
            targets.push(is_anomaly);
            w = w + 1;
            assert(targets@ =~= done + Seq::new(w as nat, |v: int| is_anomaly));
        }
        assert(targets@ =~= labels(discharge_views(discharges@), parts));
        i = i + 1;
    }
    assert(discharge_views(discharges@).take(i as int) =~= discharge_views(discharges@));
    LabelledRecords { rows, targets }
}

/// Every record has a value for each feature, and there are as many targets as records.
proof fn records_are_full<A: Arithmetic>(
    a: A,
    discharges: Seq<DischargeView>,
    params: Extremes,
    parts: Seq<Seq<Seq<u64>>>,
)
    requires
        are_parts(a, discharges, params, parts),
    ensures
        labels(discharges, parts).len() == joined(parts).len(),
        forall|i: int|
            0 <= i < joined(parts).len() ==> (#[trigger] joined(parts)[i]).len() == FEATURES,
    decreases parts.len(),
{
    if parts.len() > 0 {
        let rest = parts.drop_last();
        let seen = discharges.drop_last();
        assert forall|i: int| 0 <= i < seen.len() implies are_records_of(
            a,
            seen[i],
            params,
            #[trigger] rest[i],
        ) by {
            assert(are_records_of(a, discharges[i], params, parts[i]));
        }
        records_are_full(a, seen, params, rest);
        same_labels(discharges, seen, rest);
        let last = discharges.len() - 1;
        assert(are_records_of(a, discharges[last], params, parts[last]));
    }
}

/// The labels depend only on the discharges that have a part.
proof fn same_labels(s: Seq<DischargeView>, t: Seq<DischargeView>, parts: Seq<Seq<Seq<u64>>>)
    requires
        parts.len() <= s.len(),
        parts.len() <= t.len(),
        forall|i: int| 0 <= i < parts.len() ==> s[i] == #[trigger] t[i],
    ensures
        labels(s, parts) == labels(t, parts),
    decreases parts.len(),
{
    if parts.len() > 0 {
        same_labels(s, t, parts.drop_last());
        assert(s[parts.len() - 1] == t[parts.len() - 1]);
        assert(labels(s, parts) =~= labels(t, parts));
    }
}

/// Every record of every set of discharges has a value for each feature of each
/// signal type, and there are as many targets as records.
pub proof fn every_record_is_full<A: Arithmetic>(
    a: A,
    discharges: Seq<DischargeView>,
    params: Extremes,
    rows: Seq<Seq<u64>>,
    targets: Seq<bool>,
)
    requires
        are_records(a, discharges, params, rows, targets),
    ensures
        targets.len() == rows.len(),
        forall|i: int| 0 <= i < rows.len() ==> (#[trigger] rows[i]).len() == FEATURES,
{
    let parts = choose|parts: Seq<Seq<Seq<u64>>>| #[trigger]
        are_parts(a, discharges, params, parts) && rows == joined(parts) && targets == labels(
            discharges,
            parts,
        );
    records_are_full(a, discharges, params, parts);
}

/// How many full windows the first signal has that has any.
pub open spec fn full_windows(signals: Seq<Signal>) -> nat
    decreases signals.len(),
{
    if signals.len() == 0 {
        0
    } else {
        let count = full_windows(signals.drop_last());
        if count == 0 {
            signals.last().values@.len() / WINDOW_SIZE as nat
        } else {
            count
        }
    }
}

/// The number of full windows is that of a signal before which none has any, or
/// zero where none of the signals has any.
pub proof fn full_windows_are_the_first(signals: Seq<Signal>)
    ensures
        full_windows(signals) == 0 ==> forall|i: int|
            0 <= i < signals.len() ==> (#[trigger] signals[i]).values@.len() < WINDOW_SIZE,
        full_windows(signals) > 0 ==> exists|i: int|
            0 <= i < signals.len() && (#[trigger] signals[i]).values@.len() / WINDOW_SIZE as nat
                == full_windows(signals) && forall|j: int|
                0 <= j < i ==> (#[trigger] signals[j]).values@.len() < WINDOW_SIZE,
    decreases signals.len(),
{
    if signals.len() > 0 {
        let rest = signals.drop_last();
        let last = signals.len() - 1;
        full_windows_are_the_first(rest);
        if full_windows(rest) > 0 {
            let i = choose|i: int|
                0 <= i < rest.len() && (#[trigger] rest[i]).values@.len() / WINDOW_SIZE as nat
                    == full_windows(rest) && forall|j: int|
                    0 <= j < i ==> (#[trigger] rest[j]).values@.len() < WINDOW_SIZE;
            assert(signals[i] == rest[i]);
            assert forall|j: int| 0 <= j < i implies (#[trigger] signals[j]).values@.len()
                < WINDOW_SIZE by {
                assert(signals[j] == rest[j]);
            }
        } else {
            assert forall|j: int| 0 <= j < last implies (#[trigger] signals[j]).values@.len()
                < WINDOW_SIZE by {
                assert(signals[j] == rest[j]);
            }
            assert(signals[last].values@.len() / WINDOW_SIZE as nat == full_windows(signals));
        }
    }
}

/// A discharge has a record for each full window of its first signal that has any.
pub proof fn one_record_per_window<A: Arithmetic>(
    a: A,
    discharge: DischargeView,
    params: Extremes,
    rows: Seq<Seq<u64>>,
)
    requires
        are_records_of(a, discharge, params, rows),
    ensures
        rows.len() == full_windows(discharge.signals),
{
    let features = choose|features: Seq<FeaturesView>| #[trigger]
        all_features_of(a, discharge.signals, params, features) && rows == records(features);
    counts_agree(a, discharge.signals, params, features);
}

/// The features of signals have a value for each full window.
proof fn counts_agree<A: Arithmetic>(
    a: A,
    signals: Seq<Signal>,
    params: Extremes,
    features: Seq<FeaturesView>,
)
    requires
        all_features_of(a, signals, params, features),
    ensures
        window_count(features) == full_windows(signals),
    decreases signals.len(),
{
    if signals.len() > 0 {
        let rest = signals.drop_last();
        let seen = features.drop_last();
        assert forall|i: int| 0 <= i < rest.len() implies features_of(
            a,
            rest[i],
            params,
            #[trigger] seen[i],
        ) by {
            assert(features_of(a, signals[i], params, features[i]));
        }
        counts_agree(a, rest, params, seen);
        let last = signals.len() - 1;
        assert(features_of(a, signals[last], params, features[last]));
    }
}

/// Where all signals of a discharge have equally many values, the discharge has
/// a record for each full window of these.
pub proof fn equal_signals_give_their_windows<A: Arithmetic>(
    a: A,
    discharge: DischargeView,
    params: Extremes,
    rows: Seq<Seq<u64>>,
    length: nat,
)
    requires
        are_records_of(a, discharge, params, rows),
        discharge.signals.len() > 0,
        forall|i: int|
            0 <= i < discharge.signals.len() ==> (#[trigger] discharge.signals[i]).values@.len()
                == length,
    ensures
        rows.len() == length / WINDOW_SIZE as nat,
{
    one_record_per_window(a, discharge, params, rows);
    equal_windows(discharge.signals, length);
}

/// Signals with equally many values have equally many windows.
proof fn equal_windows(signals: Seq<Signal>, length: nat)
    requires
        signals.len() > 0,
        forall|i: int|
            0 <= i < signals.len() ==> (#[trigger] signals[i]).values@.len() == length,
    ensures
        full_windows(signals) == length / WINDOW_SIZE as nat,
    decreases signals.len(),
{
    let rest = signals.drop_last();
    assert(signals[signals.len() - 1].values@.len() == length);
    if rest.len() > 0 {
        assert forall|i: int| 0 <= i < rest.len() implies (#[trigger] rest[i]).values@.len()
            == length by {
            assert(signals[i].values@.len() == length);
        }
        equal_windows(rest, length);
    }
}

/// The place of the last features of a type is that of features of this type, and
/// none behind it has the type. Where there is no such place, none has it at all.
pub proof fn latest_is_the_last(features: Seq<FeaturesView>, kind: u32)
    ensures
        -1 <= latest(features, kind) < features.len(),
        latest(features, kind) >= 0 ==> features[latest(features, kind)].signal_type.key() == kind,
        forall|i: int|
            latest(features, kind) < i < features.len() ==> (
            #[trigger] features[i]).signal_type.key() != kind,
    decreases features.len(),
{
    if features.len() > 0 && features.last().signal_type.key() != kind {
        let rest = features.drop_last();
        latest_is_the_last(rest, kind);
        assert forall|i: int| latest(features, kind) < i < features.len() implies (
        #[trigger] features[i]).signal_type.key() != kind by {
            if i < rest.len() {
                assert(rest[i].signal_type.key() != kind);
            }
        }
    }
}

/// Discharges that are all anomalies, or none of which is, give records with one
/// and the same target.
pub proof fn targets_follow_classes<A: Arithmetic>(
    a: A,
    discharges: Seq<DischargeView>,
    params: Extremes,
    rows: Seq<Seq<u64>>,
    targets: Seq<bool>,
    anomaly: bool,
)
    requires
        are_records(a, discharges, params, rows, targets),
        forall|i: int|
            0 <= i < discharges.len() ==> ((#[trigger] discharges[i]).class
                == DisruptionClass::Anomaly) == anomaly,
    ensures
        forall|i: int| 0 <= i < targets.len() ==> #[trigger] targets[i] == anomaly,
{
    let parts = choose|parts: Seq<Seq<Seq<u64>>>| #[trigger]
        are_parts(a, discharges, params, parts) && rows == joined(parts) && targets == labels(
            discharges,
            parts,
        );
    uniform_labels(discharges, parts, anomaly);
}

/// The labels of discharges that are all anomalies, or none of which is.
proof fn uniform_labels(
    discharges: Seq<DischargeView>,
    parts: Seq<Seq<Seq<u64>>>,
    anomaly: bool,
)
    requires
        parts.len() <= discharges.len(),
        forall|i: int|
            0 <= i < discharges.len() ==> ((#[trigger] discharges[i]).class
                == DisruptionClass::Anomaly) == anomaly,
    ensures
        forall|i: int|
            0 <= i < labels(discharges, parts).len() ==> #[trigger] labels(discharges, parts)[i]
                == anomaly,
    decreases parts.len(),
{
    if parts.len() > 0 {
        uniform_labels(discharges, parts.drop_last(), anomaly);
        assert((discharges[parts.len() - 1].class == DisruptionClass::Anomaly) == anomaly);
        let before = labels(discharges, parts.drop_last());
        assert forall|i: int| 0 <= i < labels(discharges, parts).len() implies #[trigger] labels(
            discharges,
            parts,
        )[i] == anomaly by {
            if i < before.len() {
                assert(before[i] == anomaly);
            }
        }
    }
}

/// The number of full windows in all of `discharges`.
pub open spec fn all_windows(discharges: Seq<DischargeView>) -> nat
    decreases discharges.len(),
{
    if discharges.len() == 0 {
        0
    } else {
        all_windows(discharges.drop_last()) + full_windows(discharges.last().signals)
    }
}

/// Discharges have as many records and targets as they have full windows together,
/// each discharge those of its first signal that has any.
pub proof fn as_many_records_as_windows<A: Arithmetic>(
    a: A,
    discharges: Seq<DischargeView>,
    params: Extremes,
    rows: Seq<Seq<u64>>,
    targets: Seq<bool>,
)
    requires
        are_records(a, discharges, params, rows, targets),
    ensures
        rows.len() == all_windows(discharges),
        targets.len() == all_windows(discharges),
{
    let parts = choose|parts: Seq<Seq<Seq<u64>>>| #[trigger]
        are_parts(a, discharges, params, parts) && rows == joined(parts) && targets == labels(
            discharges,
            parts,
        );
    joined_length(a, discharges, params, parts);
    every_record_is_full(a, discharges, params, rows, targets);
}

/// The parts of discharges have as many rows as these have full windows.
proof fn joined_length<A: Arithmetic>(
    a: A,
    discharges: Seq<DischargeView>,
    params: Extremes,
    parts: Seq<Seq<Seq<u64>>>,
)
    requires
        are_parts(a, discharges, params, parts),
    ensures
        joined(parts).len() == all_windows(discharges),
    decreases parts.len(),
{
    if parts.len() > 0 {
        let last = parts.len() - 1;
        assert(are_records_of(a, discharges[last], params, parts[last]));
        one_record_per_window(a, discharges[last], params, parts[last]);
        assert forall|i: int| 0 <= i < last implies are_records_of(
            a,
            discharges.drop_last()[i],
            params,
            #[trigger] parts.drop_last()[i],
        ) by {
            assert(are_records_of(a, discharges[i], params, parts[i]));
        }
        joined_length(a, discharges.drop_last(), params, parts.drop_last());
    }
}

/// The rows of parts put one after the other.
proof fn joined_in_turn(p: Seq<Seq<Seq<u64>>>, q: Seq<Seq<Seq<u64>>>)
    ensures
        joined(p + q) == joined(p) + joined(q),
    decreases q.len(),
{
    if q.len() == 0 {
        assert(p + q =~= p);
        assert(joined(p) + joined(q) =~= joined(p));
    } else {
        joined_in_turn(p, q.drop_last());
        assert((p + q).drop_last() =~= p + q.drop_last());
        assert(joined(p + q) =~= joined(p) + joined(q));
    }
}

/// The labels of discharges put one after the other.
proof fn labels_in_turn(
    d: Seq<DischargeView>,
    e: Seq<DischargeView>,
    p: Seq<Seq<Seq<u64>>>,
    q: Seq<Seq<Seq<u64>>>,
)
    requires
        p.len() == d.len(),
        q.len() <= e.len(),
    ensures
        labels(d + e, p + q) == labels(d, p) + labels(e, q),
    decreases q.len(),
{
    if q.len() == 0 {
        assert(p + q =~= p);
        same_labels(d + e, d, p);
        assert(labels(d, p) + labels(e, q) =~= labels(d, p));
    } else {
        labels_in_turn(d, e, p, q.drop_last());
        assert((p + q).drop_last() =~= p + q.drop_last());
        assert((d + e)[(p + q).len() - 1] == e[q.len() - 1]);
        assert(labels(d + e, p + q) =~= labels(d, p) + labels(e, q));
    }
}

/// The records and targets that discharges may have which are put one after the
/// other are those of the first and then those of the second: their order is kept,
/// and no discharge has an influence on the records of another.
pub proof fn records_in_turn<A: Arithmetic>(
    a: A,
    first: Seq<DischargeView>,
    second: Seq<DischargeView>,
    params: Extremes,
    rows: Seq<Seq<u64>>,
    targets: Seq<bool>,
)
    ensures
        are_records(a, first + second, params, rows, targets) <==> exists|
            first_rows: Seq<Seq<u64>>,
            first_targets: Seq<bool>,
            second_rows: Seq<Seq<u64>>,
            second_targets: Seq<bool>,
        |
            #[trigger] are_records(a, first, params, first_rows, first_targets) && #[trigger]
                are_records(a, second, params, second_rows, second_targets) && rows == first_rows
                + second_rows && targets == first_targets + second_targets,
{
    let both = first + second;
    if are_records(a, both, params, rows, targets) {
        let parts = choose|parts: Seq<Seq<Seq<u64>>>| #[trigger]
            are_parts(a, both, params, parts) && rows == joined(parts) && targets == labels(
                both,
                parts,
            );
        let n = first.len() as int;
        let p = parts.take(n);
        let q = parts.skip(n);
        assert(p + q =~= parts);
        assert forall|i: int| 0 <= i < p.len() implies are_records_of(
            a,
            first[i],
            params,
            #[trigger] p[i],
        ) by {
            assert(are_records_of(a, both[i], params, parts[i]));
        }
        assert forall|i: int| 0 <= i < q.len() implies are_records_of(
            a,
            second[i],
            params,
            #[trigger] q[i],
        ) by {
            assert(are_records_of(a, both[n + i], params, parts[n + i]));
        }
        joined_in_turn(p, q);
        labels_in_turn(first, second, p, q);
        assert(are_parts(a, first, params, p) && are_parts(a, second, params, q));
        assert(are_records(a, first, params, joined(p), labels(first, p)));
        assert(are_records(a, second, params, joined(q), labels(second, q)));
    }
    if exists|
        first_rows: Seq<Seq<u64>>,
        first_targets: Seq<bool>,
        second_rows: Seq<Seq<u64>>,
        second_targets: Seq<bool>,
    |
        #[trigger] are_records(a, first, params, first_rows, first_targets) && #[trigger]
            are_records(a, second, params, second_rows, second_targets) && rows == first_rows
            + second_rows && targets == first_targets + second_targets {
        let (r, t, u, v) = choose|
            first_rows: Seq<Seq<u64>>,
            first_targets: Seq<bool>,
            second_rows: Seq<Seq<u64>>,
            second_targets: Seq<bool>,
        |
            #[trigger] are_records(a, first, params, first_rows, first_targets) && #[trigger]
                are_records(a, second, params, second_rows, second_targets) && rows == first_rows
                + second_rows && targets == first_targets + second_targets;
        let p = choose|p: Seq<Seq<Seq<u64>>>| #[trigger]
            are_parts(a, first, params, p) && r == joined(p) && t == labels(first, p);
        let q = choose|q: Seq<Seq<Seq<u64>>>| #[trigger]
            are_parts(a, second, params, q) && u == joined(q) && v == labels(second, q);
        let parts = p + q;
        assert forall|i: int| 0 <= i < both.len() implies are_records_of(
            a,
            both[i],
            params,
            #[trigger] parts[i],
        ) by {
            if i < first.len() {
                assert(are_records_of(a, first[i], params, p[i]));
            } else {
                assert(are_records_of(a, second[i - first.len()], params, q[i - first.len()]));
            }
        }
        assert(are_parts(a, both, params, parts));
        joined_in_turn(p, q);
        labels_in_turn(first, second, p, q);
    }
}

/// Discharges have the same records and targets every time, where equal arguments
/// give equal results.
pub proof fn records_are_determined<A: Arithmetic>(
    a: A,
    discharges: Seq<DischargeView>,
    params: Extremes,
    rows: Seq<Seq<u64>>,
    targets: Seq<bool>,
    other_rows: Seq<Seq<u64>>,
    other_targets: Seq<bool>,
)
    requires
        is_consistent(a),
        are_records(a, discharges, params, rows, targets),
        are_records(a, discharges, params, other_rows, other_targets),
    ensures
        rows == other_rows,
        targets == other_targets,
{
    let p = choose|p: Seq<Seq<Seq<u64>>>| #[trigger]
        are_parts(a, discharges, params, p) && rows == joined(p) && targets == labels(
            discharges,
            p,
        );
    let q = choose|q: Seq<Seq<Seq<u64>>>| #[trigger]
        are_parts(a, discharges, params, q) && other_rows == joined(q) && other_targets == labels(
            discharges,
            q,
        );
    assert forall|i: int| 0 <= i < p.len() implies #[trigger] p[i] == q[i] by {
        let signals = discharges[i].signals;
        assert(are_records_of(a, discharges[i], params, p[i]));
        assert(are_records_of(a, discharges[i], params, q[i]));
        let f = choose|f: Seq<FeaturesView>| #[trigger]
            all_features_of(a, signals, params, f) && p[i] == records(f);
        let g = choose|g: Seq<FeaturesView>| #[trigger]
            all_features_of(a, signals, params, g) && q[i] == records(g);
        assert forall|j: int| 0 <= j < f.len() implies #[trigger] f[j] == g[j] by {
            one_set_of_features(a, signals[j], params, f[j], g[j]);
        }
        assert(f =~= g);
    }
    assert(p =~= q);
}

/// A signal has the same features every time, where equal arguments give equal results.
proof fn one_set_of_features<A: Arithmetic>(
    a: A,
    signal: Signal,
    params: Extremes,
    f: FeaturesView,
    g: FeaturesView,
)
    requires
        is_consistent(a),
        features_of(a, signal, params, f),
        features_of(a, signal, params, g),
    ensures
        f == g,
{
    let kind = signal.signal_type.key();
    let v = choose|v: Seq<u64>| #[trigger]
        are_scaled(a, signal.values@, params.low[kind], params.high[kind], v) && are_features(
            a,
            v,
            WINDOW_SIZE as nat,
            f.means,
            f.deviations,
        );
    let w = choose|w: Seq<u64>| #[trigger]
        are_scaled(a, signal.values@, params.low[kind], params.high[kind], w) && are_features(
            a,
            w,
            WINDOW_SIZE as nat,
            g.means,
            g.deviations,
        );
    scaling_is_determined(a, signal.values@, params.low[kind], params.high[kind], v, w);
    features_are_determined(
        a,
        v,
        WINDOW_SIZE as nat,
        f.means,
        f.deviations,
        g.means,
        g.deviations,
    );
}

/// Where equal arguments give equal results, the dataset of discharges put one after
/// the other holds the records and targets that the first have alone, and then
/// those that the second have alone.
pub proof fn datasets_in_turn<A: Arithmetic>(
    a: A,
    first: Seq<DischargeView>,
    second: Seq<DischargeView>,
    params: Extremes,
    of_both: (Seq<Seq<u64>>, Seq<bool>),
    of_first: (Seq<Seq<u64>>, Seq<bool>),
    of_second: (Seq<Seq<u64>>, Seq<bool>),
)
    requires
        is_consistent(a),
        are_records(a, first + second, params, of_both.0, of_both.1),
        are_records(a, first, params, of_first.0, of_first.1),
        are_records(a, second, params, of_second.0, of_second.1),
    ensures
        of_both.0 == of_first.0 + of_second.0,
        of_both.1 == of_first.1 + of_second.1,
{
    let rows = of_first.0 + of_second.0;
    let targets = of_first.1 + of_second.1;
    records_in_turn(a, first, second, params, rows, targets);
    records_are_determined(
        a,
        first + second,
        params,
        of_both.0,
        of_both.1,
        rows,
        targets,
    );
}

/// Whether two discharges may have the same records.
pub open spec fn admit_same_records<A: Arithmetic>(
    a: A,
    d: DischargeView,
    e: DischargeView,
    params: Extremes,
) -> bool {
    forall|rows: Seq<Seq<u64>>| #[trigger]
        are_records_of(a, d, params, rows) <==> are_records_of(a, e, params, rows)
}

/// Discharges of the same classes that may have the same records one by one may
/// have the same records and targets together.
pub proof fn same_records_one_by_one<A: Arithmetic>(
    a: A,
    d: Seq<DischargeView>,
    e: Seq<DischargeView>,
    params: Extremes,
    rows: Seq<Seq<u64>>,
    targets: Seq<bool>,
)
    requires
        d.len() == e.len(),
        forall|i: int|
            0 <= i < d.len() ==> (#[trigger] d[i]).class == e[i].class && admit_same_records(
                a,
                d[i],
                e[i],
                params,
            ),
    ensures
        are_records(a, d, params, rows, targets) <==> are_records(a, e, params, rows, targets),
{
    if are_records(a, d, params, rows, targets) {
        let parts = choose|parts: Seq<Seq<Seq<u64>>>| #[trigger]
            are_parts(a, d, params, parts) && rows == joined(parts) && targets == labels(d, parts);
        assert forall|i: int| 0 <= i < e.len() implies are_records_of(
            a,
            e[i],
            params,
            #[trigger] parts[i],
        ) by {
            assert(admit_same_records(a, d[i], e[i], params));
            assert(are_records_of(a, d[i], params, parts[i]));
        }
        assert(are_parts(a, e, params, parts));
        labels_of_classes(d, e, parts);
    }
    if are_records(a, e, params, rows, targets) {
        let parts = choose|parts: Seq<Seq<Seq<u64>>>| #[trigger]
            are_parts(a, e, params, parts) && rows == joined(parts) && targets == labels(e, parts);
        assert forall|i: int| 0 <= i < d.len() implies are_records_of(
            a,
            d[i],
            params,
            #[trigger] parts[i],
        ) by {
            assert(admit_same_records(a, d[i], e[i], params));
            assert(are_records_of(a, e[i], params, parts[i]));
        }
        assert(are_parts(a, d, params, parts));
        labels_of_classes(d, e, parts);
    }
}

/// The labels depend on the classes alone.
proof fn labels_of_classes(
    d: Seq<DischargeView>,
    e: Seq<DischargeView>,
    parts: Seq<Seq<Seq<u64>>>,
)
    requires
        parts.len() <= d.len(),
        d.len() == e.len(),
        forall|i: int| 0 <= i < d.len() ==> (#[trigger] d[i]).class == e[i].class,
    ensures
        labels(d, parts) == labels(e, parts),
    decreases parts.len(),
{
    if parts.len() > 0 {
        labels_of_classes(d, e, parts.drop_last());
        assert(d[parts.len() - 1].class == e[parts.len() - 1].class);
        assert(labels(d, parts) =~= labels(e, parts));
    }
}

/// Features of the same types and as many windows give the same records where the
/// last of each type are the same.
proof fn last_features_decide(f: Seq<FeaturesView>, g: Seq<FeaturesView>)
    requires
        f.len() == g.len(),
        forall|i: int|
            0 <= i < f.len() ==> (#[trigger] f[i]).signal_type == g[i].signal_type
                && f[i].means.len() == g[i].means.len(),
        forall|i: int|
            0 <= i < f.len() && latest(f, (#[trigger] f[i]).signal_type.key()) == i ==> f[i]
                == g[i],
    ensures
        records(f) == records(g),
{
    same_shape(f, g);
    assert forall|w: int| 0 <= w < window_count(f) implies #[trigger] record(f, w) == record(
        g,
        w,
    ) by {
        assert forall|kind: u32|
            #![trigger mean_at(f, kind, w)]
            #![trigger deviation_at(f, kind, w)]
            mean_at(f, kind, w) == mean_at(g, kind, w) && deviation_at(f, kind, w) == deviation_at(
                g,
                kind,
                w,
            ) by {
            latest_is_the_last(f, kind);
            assert(latest(f, kind) == latest(g, kind));
            let i = latest(f, kind);
            if i >= 0 {
                assert(f[i].signal_type.key() == kind);
                assert(f[i] == g[i]);
            }
        }
        assert(record(f, w) =~= record(g, w));
    }
    assert(records(f) =~= records(g));
}

/// Places and window counts depend on the types and the lengths alone.
proof fn same_shape(f: Seq<FeaturesView>, g: Seq<FeaturesView>)
    requires
        f.len() == g.len(),
        forall|i: int|
            0 <= i < f.len() ==> (#[trigger] f[i]).signal_type == g[i].signal_type
                && f[i].means.len() == g[i].means.len(),
    ensures
        window_count(f) == window_count(g),
        forall|kind: u32| #[trigger] latest(f, kind) == latest(g, kind),
    decreases f.len(),
{
    if f.len() > 0 {
        let p = f.drop_last();
        let q = g.drop_last();
        assert forall|i: int| 0 <= i < p.len() implies (#[trigger] p[i]).signal_type
            == q[i].signal_type && p[i].means.len() == q[i].means.len() by {
            assert(f[i].signal_type == g[i].signal_type);
        }
        same_shape(p, q);
        let last = f.len() - 1;
        assert(f[last].signal_type == g[last].signal_type && f[last].means.len()
            == g[last].means.len());
        assert forall|kind: u32| #[trigger] latest(f, kind) == latest(g, kind) by {
            assert(latest(p, kind) == latest(q, kind));
        }
    }
}

/// Whether the arithmetic gives features for a signal.
pub open spec fn has_features<A: Arithmetic>(a: A, signal: Signal, params: Extremes) -> bool {
    exists|features: FeaturesView| #[trigger] features_of(a, signal, params, features)
}

/// A discharge with the values of one of its signals replaced.
pub open spec fn with_signal(d: DischargeView, i: int, signal: Signal) -> DischargeView {
    DischargeView { class: d.class, signals: d.signals.update(i, signal) }
}

/// The values of a signal behind which another of the same type stands have no
/// influence: a discharge may have the same records with any other signal of this
/// type and of equally many values in its place, where the arithmetic gives features
/// for both.
pub proof fn overwritten_signal_has_no_influence<A: Arithmetic>(
    a: A,
    d: DischargeView,
    i: int,
    j: int,
    signal: Signal,
    params: Extremes,
)
    requires
        0 <= i < j < d.signals.len(),
        d.signals[j].signal_type == d.signals[i].signal_type,
        signal.signal_type == d.signals[i].signal_type,
        signal.values@.len() == d.signals[i].values@.len(),
        has_features(a, d.signals[i], params),
        has_features(a, signal, params),
    ensures
        admit_same_records(a, d, with_signal(d, i, signal), params),
{
    let e = with_signal(d, i, signal);
    assert forall|rows: Seq<Seq<u64>>| #[trigger]
        are_records_of(a, d, params, rows) <==> are_records_of(a, e, params, rows) by {
        if are_records_of(a, d, params, rows) {
            replaced_records(a, d, i, j, signal, params, rows);
        }
        if are_records_of(a, e, params, rows) {
            assert(with_signal(e, i, d.signals[i]).signals =~= d.signals);
            replaced_records(a, e, i, j, d.signals[i], params, rows);
        }
    }
}

/// The records of a discharge are also those with another signal in the place of one
/// behind which another of the same type stands.
proof fn replaced_records<A: Arithmetic>(
    a: A,
    d: DischargeView,
    i: int,
    j: int,
    signal: Signal,
    params: Extremes,
    rows: Seq<Seq<u64>>,
)
    requires
        0 <= i < j < d.signals.len(),
        d.signals[j].signal_type == d.signals[i].signal_type,
        signal.signal_type == d.signals[i].signal_type,
        signal.values@.len() == d.signals[i].values@.len(),
        has_features(a, signal, params),
        are_records_of(a, d, params, rows),
    ensures
        are_records_of(a, with_signal(d, i, signal), params, rows),
{
    let e = with_signal(d, i, signal);
    let f = choose|f: Seq<FeaturesView>| #[trigger]
        all_features_of(a, d.signals, params, f) && rows == records(f);
    let one = choose|one: FeaturesView| #[trigger] features_of(a, signal, params, one);
    let g = f.update(i, one);
    assert(features_of(a, d.signals[i], params, f[i]));
    assert forall|k: int| 0 <= k < f.len() implies (#[trigger] f[k]).signal_type
        == g[k].signal_type && f[k].means.len() == g[k].means.len() by {
        assert(features_of(a, d.signals[k], params, f[k]));
    }
    assert forall|k: int|
        0 <= k < f.len() && latest(f, (#[trigger] f[k]).signal_type.key()) == k implies f[k]
        == g[k] by {
        latest_is_the_last(f, f[k].signal_type.key());
        if k == i {
            assert(features_of(a, d.signals[j], params, f[j]));
            assert(f[j].signal_type.key() == f[i].signal_type.key());
        }
    }
    last_features_decide(f, g);
    assert forall|k: int| 0 <= k < e.signals.len() implies features_of(
        a,
        e.signals[k],
        params,
        #[trigger] g[k],
    ) by {
        if k != i {
            assert(features_of(a, d.signals[k], params, f[k]));
        }
    }
    assert(all_features_of(a, e.signals, params, g));
}

/// Replacing a signal behind which another of the same type stands by one of the same
/// type and of equally many values leaves the records and targets that discharges
/// may have as they are, where the arithmetic gives features for both signals.
pub proof fn overwritten_signal_leaves_records<A: Arithmetic>(
    a: A,
    discharges: Seq<DischargeView>,
    k: int,
    i: int,
    j: int,
    signal: Signal,
    params: Extremes,
    rows: Seq<Seq<u64>>,
    targets: Seq<bool>,
)
    requires
        0 <= k < discharges.len(),
        0 <= i < j < discharges[k].signals.len(),
        discharges[k].signals[j].signal_type == discharges[k].signals[i].signal_type,
        signal.signal_type == discharges[k].signals[i].signal_type,
        signal.values@.len() == discharges[k].signals[i].values@.len(),
        has_features(a, discharges[k].signals[i], params),
        has_features(a, signal, params),
    ensures
        are_records(a, discharges, params, rows, targets) <==> are_records(
            a,
            discharges.update(k, with_signal(discharges[k], i, signal)),
            params,
            rows,
            targets,
        ),
{
    let d = discharges[k];
    let others = discharges.update(k, with_signal(d, i, signal));
    overwritten_signal_has_no_influence(a, d, i, j, signal, params);
    assert forall|m: int| 0 <= m < discharges.len() implies (#[trigger] discharges[m]).class
        == others[m].class && admit_same_records(a, discharges[m], others[m], params) by {}
    same_records_one_by_one(a, discharges, others, params, rows, targets);
}

/// Where equal arguments give equal results, replacing a signal behind which another
/// of the same type stands by one of the same type and of equally many values
/// leaves the whole dataset unchanged.
pub proof fn overwritten_signal_leaves_dataset<A: Arithmetic>(
    a: A,
    discharges: Seq<DischargeView>,
    k: int,
    i: int,
    j: int,
    signal: Signal,
    params: Extremes,
    before: (Seq<Seq<u64>>, Seq<bool>),
    after: (Seq<Seq<u64>>, Seq<bool>),
)
    requires
        is_consistent(a),
        0 <= k < discharges.len(),
        0 <= i < j < discharges[k].signals.len(),
        discharges[k].signals[j].signal_type == discharges[k].signals[i].signal_type,
        signal.signal_type == discharges[k].signals[i].signal_type,
        signal.values@.len() == discharges[k].signals[i].values@.len(),
        are_records(a, discharges, params, before.0, before.1),
        are_records(
            a,
            discharges.update(k, with_signal(discharges[k], i, signal)),
            params,
            after.0,
            after.1,
        ),
    ensures
        before == after,
{
    let others = discharges.update(k, with_signal(discharges[k], i, signal));
    signals_had_features(a, discharges, params, before.0, before.1, k, i);
    signals_had_features(a, others, params, after.0, after.1, k, i);
    assert(others[k].signals[i] == signal);
    overwritten_signal_leaves_records(
        a,
        discharges,
        k,
        i,
        j,
        signal,
        params,
        before.0,
        before.1,
    );
    records_are_determined(a, others, params, before.0, before.1, after.0, after.1);
}

/// Every signal of discharges that have records has features.
proof fn signals_had_features<A: Arithmetic>(
    a: A,
    discharges: Seq<DischargeView>,
    params: Extremes,
    rows: Seq<Seq<u64>>,
    targets: Seq<bool>,
    k: int,
    i: int,
)
    requires
        are_records(a, discharges, params, rows, targets),
        0 <= k < discharges.len(),
        0 <= i < discharges[k].signals.len(),
    ensures
        has_features(a, discharges[k].signals[i], params),
{
    let parts = choose|parts: Seq<Seq<Seq<u64>>>| #[trigger]
        are_parts(a, discharges, params, parts) && rows == joined(parts) && targets == labels(
            discharges,
            parts,
        );
    assert(are_records_of(a, discharges[k], params, parts[k]));
    let f = choose|f: Seq<FeaturesView>| #[trigger]
        all_features_of(a, discharges[k].signals, params, f) && parts[k] == records(f);
    assert(features_of(a, discharges[k].signals[i], params, f[i]));
}

/// Whether the signals have pairwise different types and all `windows` full windows.
pub open spec fn are_regular(signals: Seq<Signal>, windows: nat) -> bool {
    &&& have_different_types(signals)
    &&& forall|i: int|
        0 <= i < signals.len() ==> (#[trigger] signals[i]).values@.len() / WINDOW_SIZE as nat
            == windows
}

/// The order in which the signals of a discharge are given has no influence on its
/// records, where their types differ and their windows are equally many: the
/// columns of a record go by the types.
pub proof fn order_of_signals_has_no_influence<A: Arithmetic>(
    a: A,
    d: DischargeView,
    e: DischargeView,
    order: Seq<int>,
    windows: nat,
    params: Extremes,
)
    requires
        are_regular(d.signals, windows),
        is_reordered(d.signals, e.signals, order),
    ensures
        admit_same_records(a, d, e, params),
{
    let back = Seq::new(order.len(), |j: int| order.index_of(j));
    reordered_back(d.signals, e.signals, order, windows);
    assert forall|rows: Seq<Seq<u64>>| #[trigger]
        are_records_of(a, d, params, rows) <==> are_records_of(a, e, params, rows) by {
        if are_records_of(a, d, params, rows) {
            reordered_records(a, d, e, order, windows, params, rows);
        }
        if are_records_of(a, e, params, rows) {
            reordered_records(a, e, d, back, windows, params, rows);
        }
    }
}

/// What is reordered can be put back in order.
proof fn reordered_back(s: Seq<Signal>, t: Seq<Signal>, order: Seq<int>, windows: nat)
    requires
        are_regular(s, windows),
        is_reordered(s, t, order),
    ensures
        is_reordered(t, s, Seq::new(order.len(), |j: int| order.index_of(j))),
        are_regular(t, windows),
{
    let n = s.len();
    let back = Seq::new(order.len(), |j: int| order.index_of(j));
    assert forall|j: int| 0 <= j < n implies 0 <= #[trigger] back[j] < n && order[back[j]] == j by {
        assert(order.contains(j));
    }
    assert forall|j: int, k: int| 0 <= j < n && 0 <= k < n && j != k implies back[j] != back[k] by {
        assert(order[back[j]] == j && order[back[k]] == k);
    }
    assert forall|i: int| 0 <= i < n implies #[trigger] back.contains(i) by {
        let j = order[i];
        assert(order[back[j]] == j);
        assert(back[j] == i);
    }
    assert forall|j: int| 0 <= j < n implies #[trigger] s[j] == t[back[j]] by {
        assert(t[back[j]] == s[order[back[j]]]);
    }
    assert forall|i: int, k: int| 0 <= i < k < n implies (#[trigger] t[i]).signal_type != (
    #[trigger] t[k]).signal_type by {
        assert(order[i] != order[k]);
        assert(t[i] == s[order[i]] && t[k] == s[order[k]]);
        if order[i] < order[k] {
            assert(s[order[i]].signal_type != s[order[k]].signal_type);
        } else {
            assert(s[order[k]].signal_type != s[order[i]].signal_type);
        }
    }
    assert forall|i: int| 0 <= i < n implies (#[trigger] t[i]).values@.len() / WINDOW_SIZE as nat
        == windows by {
        assert(t[i] == s[order[i]]);
    }
}

/// The records of a discharge are also those of its signals in another order.
proof fn reordered_records<A: Arithmetic>(
    a: A,
    d: DischargeView,
    e: DischargeView,
    order: Seq<int>,
    windows: nat,
    params: Extremes,
    rows: Seq<Seq<u64>>,
)
    requires
        are_regular(d.signals, windows),
        is_reordered(d.signals, e.signals, order),
        are_records_of(a, d, params, rows),
    ensures
        are_records_of(a, e, params, rows),
{
    let f = choose|f: Seq<FeaturesView>| #[trigger]
        all_features_of(a, d.signals, params, f) && rows == records(f);
    let g = Seq::new(order.len(), |i: int| f[order[i]]);
    assert forall|i: int| 0 <= i < g.len() implies features_of(
        a,
        e.signals[i],
        params,
        #[trigger] g[i],
    ) by {
        assert(e.signals[i] == d.signals[order[i]]);
        assert(features_of(a, d.signals[order[i]], params, f[order[i]]));
    }
    assert(all_features_of(a, e.signals, params, g));
    assert forall|i: int| 0 <= i < f.len() implies (#[trigger] f[i]).means.len() == windows
        && f[i].signal_type == d.signals[i].signal_type by {
        assert(features_of(a, d.signals[i], params, f[i]));
    }
    assert forall|i: int| 0 <= i < g.len() implies (#[trigger] g[i]).means.len() == windows by {
        assert(f[order[i]].means.len() == windows);
    }
    equal_counts(f, windows);
    equal_counts(g, windows);
    assert forall|w: int| #[trigger] record(f, w) == record(g, w) by {
        assert forall|kind: u32|
            #![trigger mean_at(f, kind, w)]
            #![trigger deviation_at(f, kind, w)]
            mean_at(f, kind, w) == mean_at(g, kind, w) && deviation_at(f, kind, w) == deviation_at(
                g,
                kind,
                w,
            ) by {
            latest_moves(d.signals, f, g, order, kind);
        }
        assert(record(f, w) =~= record(g, w));
    }
    assert(records(f) =~= records(g));
}

/// Features of different types that are reordered have the same last features of a type.
proof fn latest_moves(
    signals: Seq<Signal>,
    f: Seq<FeaturesView>,
    g: Seq<FeaturesView>,
    order: Seq<int>,
    kind: u32,
)
    requires
        f.len() == signals.len(),
        is_order(order, signals.len()),
        g == Seq::new(order.len(), |i: int| f[order[i]]),
        have_different_types(signals),
        forall|i: int|
            0 <= i < f.len() ==> (#[trigger] f[i]).signal_type == signals[i].signal_type,
    ensures
        latest(f, kind) < 0 <==> latest(g, kind) < 0,
        latest(f, kind) >= 0 ==> g[latest(g, kind)] == f[latest(f, kind)],
{
    latest_is_the_last(f, kind);
    latest_is_the_last(g, kind);
    let i = latest(f, kind);
    let k = latest(g, kind);
    if i >= 0 {
        assert(order.contains(i));
        let m = order.index_of(i);
        assert(order[m] == i && g[m] == f[i]);
        assert(g[m].signal_type.key() == kind);
        assert(k >= 0);
    }
    if k >= 0 {
        let j = order[k];
        assert(g[k] == f[j]);
        assert(f[j].signal_type.key() == kind);
        assert(i >= 0);
        keys_tell_types_apart(f[i].signal_type, f[j].signal_type);
        if i < j {
            assert(signals[i].signal_type != signals[j].signal_type);
        } else if j < i {
            assert(signals[j].signal_type != signals[i].signal_type);
        }
    }
}

/// Features of equally many windows have this number of windows together.
proof fn equal_counts(f: Seq<FeaturesView>, windows: nat)
    requires
        forall|i: int| 0 <= i < f.len() ==> (#[trigger] f[i]).means.len() == windows,
    ensures
        window_count(f) == if f.len() == 0 {
            0
        } else {
            windows
        },
    decreases f.len(),
{
    if f.len() > 0 {
        let rest = f.drop_last();
        assert forall|i: int| 0 <= i < rest.len() implies (#[trigger] rest[i]).means.len()
            == windows by {
            assert(f[i].means.len() == windows);
        }
        equal_counts(rest, windows);
        assert(f[f.len() - 1].means.len() == windows);
    }
}

/// Whether `others` are `discharges` with the signals inside each in another order,
/// and in each of them the types differ and the windows are equally many.
pub open spec fn are_reordered(
    discharges: Seq<DischargeView>,
    others: Seq<DischargeView>,
    orders: Seq<Seq<int>>,
    windows: Seq<nat>,
) -> bool {
    &&& others.len() == discharges.len()
    &&& orders.len() == discharges.len()
    &&& windows.len() == discharges.len()
    &&& forall|k: int|
        0 <= k < discharges.len() ==> {
            &&& (#[trigger] discharges[k]).class == others[k].class
            &&& are_regular(discharges[k].signals, windows[k])
            &&& is_reordered(discharges[k].signals, others[k].signals, orders[k])
        }
}

/// Putting the signals inside each discharge in another order leaves the records and
/// targets that discharges may have as they are, and the extremes by which they are
/// normalized, where in each discharge the types differ and the windows are equally
/// many.
pub proof fn order_of_signals_leaves_records<A: Arithmetic>(
    a: A,
    discharges: Seq<DischargeView>,
    others: Seq<DischargeView>,
    orders: Seq<Seq<int>>,
    windows: Seq<nat>,
    params: Extremes,
    rows: Seq<Seq<u64>>,
    targets: Seq<bool>,
)
    requires
        are_reordered(discharges, others, orders, windows),
    ensures
        are_records(a, discharges, params, rows, targets) <==> are_records(
            a,
            others,
            params,
            rows,
            targets,
        ),
        extremes(all_signals(discharges)) == extremes(all_signals(others)),
{
    assert forall|k: int| 0 <= k < discharges.len() implies (#[trigger] discharges[k]).class
        == others[k].class && admit_same_records(a, discharges[k], others[k], params) by {
        order_of_signals_has_no_influence(
            a,
            discharges[k],
            others[k],
            orders[k],
            windows[k],
            params,
        );
    }
    same_records_one_by_one(a, discharges, others, params, rows, targets);
    order_of_signals_leaves_extremes(discharges, others, orders);
}

/// Where equal arguments give equal results, putting the signals inside each
/// discharge in another order leaves the whole dataset unchanged, where in each
/// discharge the types differ and the windows are equally many.
pub proof fn order_of_signals_leaves_dataset<A: Arithmetic>(
    a: A,
    discharges: Seq<DischargeView>,
    others: Seq<DischargeView>,
    orders: Seq<Seq<int>>,
    windows: Seq<nat>,
    params: Extremes,
    before: (Seq<Seq<u64>>, Seq<bool>),
    after: (Seq<Seq<u64>>, Seq<bool>),
)
    requires
        is_consistent(a),
        are_reordered(discharges, others, orders, windows),
        are_records(a, discharges, params, before.0, before.1),
        are_records(a, others, params, after.0, after.1),
    ensures
        before == after,
{
    order_of_signals_leaves_records(
        a,
        discharges,
        others,
        orders,
        windows,
        params,
        before.0,
        before.1,
    );
    records_are_determined(a, others, params, before.0, before.1, after.0, after.1);
}

/// The records of a discharge depend on the types and values of its signals alone:
/// neither labels nor classes of signals have an influence.
pub proof fn measurements_decide_records<A: Arithmetic>(
    a: A,
    d: DischargeView,
    e: DischargeView,
    params: Extremes,
)
    requires
        same_measurements(d.signals, e.signals),
    ensures
        admit_same_records(a, d, e, params),
{
    assert forall|rows: Seq<Seq<u64>>| #[trigger]
        are_records_of(a, d, params, rows) <==> are_records_of(a, e, params, rows) by {
        if are_records_of(a, d, params, rows) {
            let f = choose|f: Seq<FeaturesView>| #[trigger]
                all_features_of(a, d.signals, params, f) && rows == records(f);
            assert forall|i: int| 0 <= i < f.len() implies features_of(
                a,
                e.signals[i],
                params,
                #[trigger] f[i],
            ) by {
                assert(features_of(a, d.signals[i], params, f[i]));
            }
            assert(all_features_of(a, e.signals, params, f));
        }
        if are_records_of(a, e, params, rows) {
            let f = choose|f: Seq<FeaturesView>| #[trigger]
                all_features_of(a, e.signals, params, f) && rows == records(f);
            assert forall|i: int| 0 <= i < f.len() implies features_of(
                a,
                d.signals[i],
                params,
                #[trigger] f[i],
            ) by {
                assert(features_of(a, e.signals[i], params, f[i]));
                assert(d.signals[i].signal_type == e.signals[i].signal_type);
            }
            assert(all_features_of(a, d.signals, params, f));
        }
    }
}

/// The elements of `rows`, row after row.
fn flatten(rows: &Vec<Vec<u64>>) -> (elements: Vec<u64>)
    requires
        forall|i: int| 0 <= i < rows@.len() ==> (#[trigger] rows@[i])@.len() == FEATURES,
    ensures
        elements@.len() == rows@.len() * FEATURES,
        cut(elements@, rows@.len(), FEATURES as nat) == views(rows@),
{
    let mut elements: Vec<u64> = Vec::new();
    let mut i: usize = 0;
    while i < rows.len()
        invariant
            i <= rows@.len(),
            forall|j: int| 0 <= j < rows@.len() ==> (#[trigger] rows@[j])@.len() == FEATURES,
            elements@.len() == i * FEATURES,
            forall|j: int|
                0 <= j < i ==> elements@.subrange(j * FEATURES, (j + 1) * FEATURES)
                    == (#[trigger] rows@[j])@,
        decreases rows@.len() - i,
    {
        let ghost before = elements@;
        elements.extend_from_slice(rows[i].as_slice());
        assert(elements@ =~= before + rows@[i as int]@);
        proof {
            assert forall|j: int| 0 <= j < i + 1 implies elements@.subrange(
                j * FEATURES,
                (j + 1) * FEATURES,
            ) == (#[trigger] rows@[j])@ by {
                if j < i {
                    assert(before.subrange(j * FEATURES, (j + 1) * FEATURES) == rows@[j]@);
                }
                assert(elements@.subrange(j * FEATURES, (j + 1) * FEATURES) =~= rows@[j]@);
            }
        }
        i = i + 1;
    }
    assert(cut(elements@, rows@.len(), FEATURES as nat) =~= views(rows@));
    elements
}

/// The dataset of all windows of `discharges`, normalized by `params`.
pub fn get_dataset<A: Arithmetic>(
    a: &A,
    discharges: Vec<Discharge>,
    params: &NormalizationParams,
) -> (dataset: Dataset)
    requires
        forall|i: int|
            0 <= i < discharges@.len() ==> params@.covers((#[trigger] discharges@[i]).signals@),
    ensures
        are_records(
            *a,
            discharge_views(discharges@),
            params@,
            dataset_records(dataset),
            dataset_targets(dataset),
        ),
        dataset_columns(dataset) == FEATURES,
        dataset_records(dataset).len() == all_windows(discharge_views(discharges@)),
        dataset_targets(dataset).len() == all_windows(discharge_views(discharges@)),
{
    let all = get_records(a, &discharges, params);
    proof {
        let discharges = discharge_views(discharges@);
        every_record_is_full(*a, discharges, params@, views(all.rows@), all.targets@);
        as_many_records_as_windows(*a, discharges, params@, views(all.rows@), all.targets@);
        assert forall|i: int| 0 <= i < all.rows@.len() implies (#[trigger] all.rows@[i])@.len()
            == FEATURES by {
            assert(views(all.rows@)[i] == all.rows@[i]@);
        }
    }
    let elements = flatten(&all.rows);
    let columns: usize = SignalType::count() * FeatureType::count();
    assert(columns == FEATURES);
    assert(elements.len() == all.rows@.len() * FEATURES);
    let records = matrix_from_elements(all.rows.len(), columns, elements).unwrap();
    let targets = targets_from_vec(all.targets);
    dataset_new(records, targets)
}

/// In a record the mean of a type stands at the type's number less one and its frequency
/// deviation seven places behind. They are those of the last signal of the type in this
/// window, or zero where it has no such window.
proof fn cells_of_a_type(features: Seq<FeaturesView>, w: int, i: int)
    requires
        0 <= w,
        0 <= i < features.len(),
        forall|j: int|
            i < j < features.len() ==> (#[trigger] features[j]).signal_type
                != features[i].signal_type,
    ensures
        record(features, w).len() == 14,
        1 <= features[i].signal_type.key() <= 7,
        record(features, w)[features[i].signal_type.key() - 1] == if w < features[i].means.len() {
            features[i].means[w]
        } else {
            0
        },
        record(features, w)[features[i].signal_type.key() + 6] == if w
            < features[i].deviations.len() {
            features[i].deviations[w]
        } else {
            0
        },
{
    let kind = features[i].signal_type.key();
    latest_is_the_last(features, kind);
    let k = latest(features, kind);
    assert(k >= i);
    if k > i {
        keys_tell_types_apart(features[k].signal_type, features[i].signal_type);
    }
    assert(record(features, w)[kind - 1] == mean_at(features, kind, w));
    assert(record(features, w)[kind + 6] == deviation_at(features, kind, w));
}

/// In a record both places of a type that no signal has are zero.
proof fn cells_of_no_type(features: Seq<FeaturesView>, w: int, signal_type: SignalType)
    requires
        0 <= w,
        forall|i: int|
            0 <= i < features.len() ==> (#[trigger] features[i]).signal_type != signal_type,
    ensures
        1 <= signal_type.key() <= 7,
        record(features, w)[signal_type.key() - 1] == 0,
        record(features, w)[signal_type.key() + 6] == 0,
{
    let kind = signal_type.key();
    latest_is_the_last(features, kind);
    let k = latest(features, kind);
    if k >= 0 {
        keys_tell_types_apart(features[k].signal_type, signal_type);
    }
    assert(record(features, w)[kind - 1] == mean_at(features, kind, w));
    assert(record(features, w)[kind + 6] == deviation_at(features, kind, w));
}

/// Without windows there are none to count.
proof fn no_features_count(features: Seq<FeaturesView>)
    requires
        forall|i: int| 0 <= i < features.len() ==> (#[trigger] features[i]).means.len() == 0,
    ensures
        window_count(features) == 0,
    decreases features.len(),
{
    if features.len() > 0 {
        let rest = features.drop_last();
        assert forall|i: int| 0 <= i < rest.len() implies (#[trigger] rest[i]).means.len() == 0 by {
            assert(features[i].means.len() == 0);
        }
        no_features_count(rest);
        assert(features[features.len() - 1].means.len() == 0);
    }
}

/// The windows are as many as those of the first features that have any.
proof fn first_features_count(features: Seq<FeaturesView>, i: int)
    requires
        0 <= i < features.len(),
        features[i].means.len() > 0,
        forall|j: int| 0 <= j < i ==> (#[trigger] features[j]).means.len() == 0,
    ensures
        window_count(features) == features[i].means.len(),
    decreases features.len(),
{
    let rest = features.drop_last();
    assert forall|j: int| 0 <= j < i implies (#[trigger] rest[j]).means.len() == 0 by {
        assert(features[j].means.len() == 0);
    }
    if i < rest.len() {
        assert(rest[i] == features[i]);
        first_features_count(rest, i);
    } else {
        no_features_count(rest);
    }
}

/// Rows that are the records of features hold them in their order.
proof fn row_is_record(features: Seq<TypeFeatures>, rows: Seq<Vec<u64>>, w: int)
    requires
        views(rows) == records(feature_views(features)),
        0 <= w < rows.len(),
    ensures
        rows[w]@ == record(feature_views(features), w),
{
    assert(views(rows).len() == rows.len());
    assert(views(rows)[w] == rows[w]@);
}

/// In the record of every window, each signal type has two places of its own: its mean
/// among the first seven and its frequency deviation among the last seven, both in the
/// order of the types. There stand the features of the last signal of the type for this
/// window, or zero where it has no such window.
pub proof fn records_hold_features(
    features: Vec<TypeFeatures>,
    rows: Vec<Vec<u64>>,
    w: int,
    i: int,
)
    requires
        call_ensures(window_records, (&features,), rows),
        0 <= w < rows@.len(),
        0 <= i < features@.len(),
        forall|j: int|
            i < j < features@.len() ==> (#[trigger] features@[j]).signal_type
                != features@[i].signal_type,
    ensures
        ({
            let place = match features@[i].signal_type {
                SignalType::CorrientePlasma => 0int,
                SignalType::ModeLock => 1,
                SignalType::Inductancia => 2,
                SignalType::Densidad => 3,
                SignalType::DerivadaEnergiaDiamagnetica => 4,
                SignalType::PotenciaRadiada => 5,
                SignalType::PotenciaDeEntrada => 6,
            };
            &&& rows@[w]@.len() == 14
            &&& place == features@[i].signal_type.key() - 1
            &&& rows@[w]@[place] == if w < features@[i].means@.len() {
                features@[i].means@[w]
            } else {
                0
            }
            &&& rows@[w]@[place + 7] == if w < features@[i].deviations@.len() {
                features@[i].deviations@[w]
            } else {
                0
            }
        }),
{
    let all = feature_views(features@);
    row_is_record(features@, rows@, w);
    assert forall|j: int| i < j < all.len() implies (#[trigger] all[j]).signal_type
        != all[i].signal_type by {
        assert(features@[j].signal_type != features@[i].signal_type);
    }
    cells_of_a_type(all, w, i);
}

/// In the record of every window, both places of a signal type that no signal has hold
/// zero.
pub proof fn records_hold_zero_without_signals(
    features: Vec<TypeFeatures>,
    rows: Vec<Vec<u64>>,
    w: int,
    signal_type: SignalType,
)
    requires
        call_ensures(window_records, (&features,), rows),
        0 <= w < rows@.len(),
        forall|i: int|
            0 <= i < features@.len() ==> (#[trigger] features@[i]).signal_type != signal_type,
    ensures
        rows@[w]@.len() == 14,
        rows@[w]@[signal_type.key() - 1] == 0,
        rows@[w]@[signal_type.key() + 6] == 0,
{
    let all = feature_views(features@);
    row_is_record(features@, rows@, w);
    assert forall|i: int| 0 <= i < all.len() implies (#[trigger] all[i]).signal_type
        != signal_type by {
        assert(features@[i].signal_type != signal_type);
    }
    cells_of_no_type(all, w, signal_type);
}

/// There are as many records as the first features that have any windows have windows.
pub proof fn first_features_set_the_number(
    features: Vec<TypeFeatures>,
    rows: Vec<Vec<u64>>,
    i: int,
)
    requires
        call_ensures(window_records, (&features,), rows),
        0 <= i < features@.len(),
        features@[i].means@.len() > 0,
        forall|j: int| 0 <= j < i ==> (#[trigger] features@[j]).means@.len() == 0,
    ensures
        rows@.len() == features@[i].means@.len(),
{
    let all = feature_views(features@);
    assert forall|j: int| 0 <= j < i implies (#[trigger] all[j]).means.len() == 0 by {
        assert(features@[j].means@.len() == 0);
    }
    assert(all[i].means == features@[i].means@);
    first_features_count(all, i);
    assert(views(rows@).len() == rows@.len());
}

/// There are no records where no features have any windows.
pub proof fn without_windows_no_records(features: Vec<TypeFeatures>, rows: Vec<Vec<u64>>)
    requires
        call_ensures(window_records, (&features,), rows),
        forall|i: int| 0 <= i < features@.len() ==> (#[trigger] features@[i]).means@.len() == 0,
    ensures
        rows@.len() == 0,
{
    let all = feature_views(features@);
    assert forall|j: int| 0 <= j < all.len() implies (#[trigger] all[j]).means.len() == 0 by {
        assert(features@[j].means@.len() == 0);
    }
    no_features_count(all);
    assert(views(rows@).len() == rows@.len());
}

/// Whether `record` holds the mean and the frequency deviation of `signal` in the window
/// `w` at the two places of its type. The values are scaled between the extremes held
/// for the type, and a window is sixteen of them. The deviation is that of the magnitudes
/// at the bins from 1 to 8 of the window's transform. Both places hold zero where the
/// signal has no such window.
pub open spec fn holds_features(
    f: Operations,
    signal: Signal,
    low: Map<u32, u64>,
    high: Map<u32, u64>,
    w: int,
    record: Seq<u64>,
) -> bool {
    let kind = signal.signal_type.key();
    let values = signal.values@.map_values(
        |x: u64| (f.over)((f.minus)(x, low[kind]), (f.minus)(high[kind], low[kind])),
    );
    let part = values.subrange(w * 16, (w + 1) * 16);
    let bins = Seq::new(8, |i: int| (f.frequency)(part, (i + 1) as usize));
    let center = (f.over)((f.sum)(bins), (f.number)(8));
    let squares = Seq::new(
        8,
        |i: int| (f.times)((f.minus)(bins[i], center), (f.minus)(bins[i], center)),
    );
    if (w + 1) * 16 <= signal.values@.len() {
        &&& record[kind - 1] == (f.over)((f.sum)(part), (f.number)(16))
        &&& record[kind + 6] == (f.root)((f.over)((f.sum)(squares), (f.number)(8)))
    } else {
        &&& record[kind - 1] == 0
        &&& record[kind + 6] == 0
    }
}

/// Whether `n` is the number of full windows of the first signal that has any, or zero
/// where none has any.
pub open spec fn is_window_number(signals: Seq<Signal>, n: nat) -> bool {
    &&& (forall|i: int| 0 <= i < signals.len() ==> (#[trigger] signals[i]).values@.len() < 16)
        ==> n == 0
    &&& forall|i: int|
        0 <= i < signals.len() && signals[i].values@.len() >= 16 && none_before(signals, i)
            ==> n == (#[trigger] signals[i]).values@.len() / 16
}

/// Whether no signal before the place `i` fills a window.
pub open spec fn none_before(signals: Seq<Signal>, i: int) -> bool {
    forall|j: int| 0 <= j < i ==> (#[trigger] signals[j]).values@.len() < 16
}

/// Whether no signal behind the place `i` has the type of the one that stands there.
pub open spec fn is_last_of_type(signals: Seq<Signal>, i: int) -> bool {
    forall|j: int|
        i < j < signals.len() ==> (#[trigger] signals[j]).signal_type != signals[i].signal_type
}

/// Whether no signal has the type.
pub open spec fn is_missing(signals: Seq<Signal>, t: SignalType) -> bool {
    forall|i: int| 0 <= i < signals.len() ==> (#[trigger] signals[i]).signal_type != t
}

/// Whether `rows` are the records of a discharge with the given signals: one of fourteen
/// values for each full window of the first signal that has any, with the features of
/// the last signal of each type, and zero for types that no signal has.
pub open spec fn describes_windows(
    f: Operations,
    signals: Seq<Signal>,
    low: Map<u32, u64>,
    high: Map<u32, u64>,
    rows: Seq<Seq<u64>>,
) -> bool {
    &&& is_window_number(signals, rows.len())
    &&& forall|w: int| 0 <= w < rows.len() ==> (#[trigger] rows[w]).len() == 14
    &&& forall|w: int, i: int|
        0 <= w < rows.len() && 0 <= i < signals.len() && is_last_of_type(signals, i)
            ==> holds_features(f, #[trigger] signals[i], low, high, w, #[trigger] rows[w])
    &&& forall|w: int, t: SignalType|
        0 <= w < rows.len() && #[trigger] is_missing(signals, t) ==> (#[trigger] rows[w])[t.key()
            - 1] == 0 && rows[w][t.key() + 6] == 0
}

/// The features of signals have the number of windows that the signals have.
proof fn features_have_window_number<A: Arithmetic>(
    a: A,
    signals: Seq<Signal>,
    params: Extremes,
    all: Seq<FeaturesView>,
)
    requires
        all_features_of(a, signals, params, all),
    ensures
        is_window_number(signals, window_count(all)),
{
    assert forall|i: int| 0 <= i < signals.len() implies (#[trigger] all[i]).means.len()
        == signals[i].values@.len() / 16 by {
        assert(features_of(a, signals[i], params, all[i]));
    }
    if forall|i: int| 0 <= i < signals.len() ==> (#[trigger] signals[i]).values@.len() < 16 {
        assert forall|i: int| 0 <= i < all.len() implies (#[trigger] all[i]).means.len() == 0 by {
            assert(signals[i].values@.len() < 16);
        }
        no_features_count(all);
    }
    assert forall|i: int|
        0 <= i < signals.len() && signals[i].values@.len() >= 16 && none_before(
            signals,
            i,
        ) implies window_count(all) == (#[trigger] signals[i]).values@.len() / 16 by {
        assert(all[i].means.len() > 0);
        assert forall|j: int| 0 <= j < i implies (#[trigger] all[j]).means.len() == 0 by {
            assert(signals[j].values@.len() < 16);
        }
        first_features_count(all, i);
    }
}

/// What it is to be the records of a discharge.
pub proof fn records_described_by<A: Arithmetic>(
    a: A,
    f: Operations,
    discharge: DischargeView,
    params: Extremes,
    rows: Seq<Seq<u64>>,
)
    requires
        computes(a, f),
        are_records_of(a, discharge, params, rows),
    ensures
        describes_windows(f, discharge.signals, params.low, params.high, rows),
{
    let signals = discharge.signals;
    let all = choose|all: Seq<FeaturesView>| #[trigger]
        all_features_of(a, signals, params, all) && rows == records(all);
    features_have_window_number(a, signals, params, all);
    assert forall|w: int, i: int|
        0 <= w < rows.len() && 0 <= i < signals.len() && is_last_of_type(
            signals,
            i,
        ) implies holds_features(
        f,
        #[trigger] signals[i],
        params.low,
        params.high,
        w,
        #[trigger] rows[w],
    ) by {
        last_features_held(a, f, signals, params, all, w, i);
    }
    assert forall|w: int, t: SignalType|
        0 <= w < rows.len() && #[trigger] is_missing(signals, t) implies (
    #[trigger] rows[w])[t.key() - 1] == 0 && rows[w][t.key() + 6] == 0 by {
        missing_features_held(a, signals, params, all, w, t);
    }
}

/// A record holds the features of the last signal of a type.
proof fn last_features_held<A: Arithmetic>(
    a: A,
    f: Operations,
    signals: Seq<Signal>,
    params: Extremes,
    all: Seq<FeaturesView>,
    w: int,
    i: int,
)
    requires
        computes(a, f),
        all_features_of(a, signals, params, all),
        0 <= w,
        0 <= i < signals.len(),
        is_last_of_type(signals, i),
    ensures
        holds_features(f, signals[i], params.low, params.high, w, record(all, w)),
{
    assert(features_of(a, signals[i], params, all[i]));
    assert forall|j: int| i < j < all.len() implies (#[trigger] all[j]).signal_type
        != all[i].signal_type by {
        assert(features_of(a, signals[j], params, all[j]));
        assert(signals[j].signal_type != signals[i].signal_type);
    }
    cells_of_a_type(all, w, i);
    features_held(a, f, signals[i], params, all[i], w, record(all, w));
}

/// A record holds zero for a type that no signal has.
proof fn missing_features_held<A: Arithmetic>(
    a: A,
    signals: Seq<Signal>,
    params: Extremes,
    all: Seq<FeaturesView>,
    w: int,
    t: SignalType,
)
    requires
        all_features_of(a, signals, params, all),
        0 <= w,
        is_missing(signals, t),
    ensures
        record(all, w)[t.key() - 1] == 0,
        record(all, w)[t.key() + 6] == 0,
{
    assert forall|i: int| 0 <= i < all.len() implies (#[trigger] all[i]).signal_type != t by {
        assert(features_of(a, signals[i], params, all[i]));
        assert(signals[i].signal_type != t);
    }
    cells_of_no_type(all, w, t);
}

/// A record with the features of a signal holds what these are of its values.
proof fn features_held<A: Arithmetic>(
    a: A,
    f: Operations,
    signal: Signal,
    params: Extremes,
    features: FeaturesView,
    w: int,
    record: Seq<u64>,
)
    requires
        computes(a, f),
        0 <= w,
        features_of(a, signal, params, features),
        record[signal.signal_type.key() - 1] == if w < features.means.len() {
            features.means[w]
        } else {
            0
        },
        record[signal.signal_type.key() + 6] == if w < features.deviations.len() {
            features.deviations[w]
        } else {
            0
        },
    ensures
        holds_features(f, signal, params.low, params.high, w, record),
{
    let kind = signal.signal_type.key();
    let values = choose|values: Seq<u64>| #[trigger]
        are_scaled(a, signal.values@, params.low[kind], params.high[kind], values)
            && are_features(
            a,
            values,
            WINDOW_SIZE as nat,
            features.means,
            features.deviations,
        );
    values_scaled_by(a, f, signal.values@, params.low[kind], params.high[kind], values);
    if (w + 1) * 16 <= signal.values@.len() {
        features_by(a, f, values, 16, features.means, features.deviations, w);
        let part = values.subrange(w * 16, (w + 1) * 16);
        let bins = Seq::new(8, |i: int| (f.frequency)(part, (i + 1) as usize));
        assert(Seq::new(16nat / 2, |i: int| (f.frequency)(part, (i + 1) as usize)) =~= bins);
        let center = (f.over)((f.sum)(bins), (f.number)(8));
        assert(Seq::new(
            bins.len(),
            |i: int| (f.times)((f.minus)(bins[i], center), (f.minus)(bins[i], center)),
        ) =~= Seq::new(
            8,
            |i: int| (f.times)((f.minus)(bins[i], center), (f.minus)(bins[i], center)),
        ));
    }
}

/// What it is to be the records of discharges: their parts.
pub proof fn parts_described_by<A: Arithmetic>(
    a: A,
    f: Operations,
    discharges: Seq<DischargeView>,
    params: Extremes,
    rows: Seq<Seq<u64>>,
    targets: Seq<bool>,
) -> (parts: Seq<Seq<Seq<u64>>>)
    requires
        computes(a, f),
        are_records(a, discharges, params, rows, targets),
    ensures
        parts.len() == discharges.len(),
        rows == parts.flatten(),
        targets == Seq::new(
            parts.len(),
            |i: int|
                Seq::new(
                    parts[i].len(),
                    |w: int| discharges[i].class == DisruptionClass::Anomaly,
                ),
        ).flatten(),
        forall|i: int|
            0 <= i < parts.len() ==> describes_windows(
                f,
                discharges[i].signals,
                params.low,
                params.high,
                #[trigger] parts[i],
            ),
{
    let parts = choose|parts: Seq<Seq<Seq<u64>>>| #[trigger]
        are_parts(a, discharges, params, parts) && rows == joined(parts) && targets == labels(
            discharges,
            parts,
        );
    joined_is_flat(parts);
    labels_are_flat(discharges, parts);
    assert forall|i: int| 0 <= i < parts.len() implies describes_windows(
        f,
        discharges[i].signals,
        params.low,
        params.high,
        #[trigger] parts[i],
    ) by {
        assert(are_records_of(a, discharges[i], params, parts[i]));
        records_described_by(a, f, discharges[i], params, parts[i]);
    }
    parts
}

/// Joining parts puts them one after the other.
proof fn joined_is_flat(parts: Seq<Seq<Seq<u64>>>)
    ensures
        joined(parts) == parts.flatten(),
    decreases parts.len(),
{
    if parts.len() > 0 {
        let rest = parts.drop_last();
        joined_is_flat(rest);
        assert(parts =~= rest.push(parts.last()));
        rest.lemma_flatten_push(parts.last());
    } else {
        assert(joined(parts) =~= parts.flatten());
    }
}

/// Labels are put one after the other as the parts are.
proof fn labels_are_flat(discharges: Seq<DischargeView>, parts: Seq<Seq<Seq<u64>>>)
    requires
        parts.len() <= discharges.len(),
    ensures
        labels(discharges, parts) == Seq::new(
            parts.len(),
            |i: int|
                Seq::new(
                    parts[i].len(),
                    |w: int| discharges[i].class == DisruptionClass::Anomaly,
                ),
        ).flatten(),
    decreases parts.len(),
{
    let lists = Seq::new(
        parts.len(),
        |i: int|
            Seq::new(
                parts[i].len(),
                |w: int| discharges[i].class == DisruptionClass::Anomaly,
            ),
    );
    if parts.len() > 0 {
        let rest = parts.drop_last();
        labels_are_flat(discharges, rest);
        let before = Seq::new(
            rest.len(),
            |i: int|
                Seq::new(
                    rest[i].len(),
                    |w: int| discharges[i].class == DisruptionClass::Anomaly,
                ),
        );
        let last = Seq::new(
            parts.last().len(),
            |w: int| discharges[parts.len() - 1].class == DisruptionClass::Anomaly,
        );
        assert(lists.drop_last() =~= before) by {
            assert forall|i: int| 0 <= i < before.len() implies #[trigger] lists.drop_last()[i]
                == before[i] by {
                assert(lists[i] =~= before[i]);
            }
        }
        assert(lists.last() =~= last);
        assert(lists =~= before.push(last));
        before.lemma_flatten_push(last);
    } else {
        assert(labels(discharges, parts) =~= lists.flatten());
    }
}

/// A dataset holds the records of the first discharge, then those of the second, and so
/// on. The records of a discharge describe its windows, normalized by the parameters.
/// Each has as its target whether its discharge is an anomaly.
pub proof fn dataset_describes_windows<A: Arithmetic>(
    a: A,
    f: Operations,
    discharges: Vec<Discharge>,
    params: NormalizationParams,
    dataset: Dataset,
) -> (parts: Seq<Seq<Seq<u64>>>)
    requires
        computes(a, f),
        call_ensures(get_dataset::<A>, (&a, discharges, &params), dataset),
    ensures
        parts.len() == discharges@.len(),
        dataset_columns(dataset) == 14,
        dataset_records(dataset) == parts.flatten(),
        dataset_targets(dataset) == Seq::new(
            parts.len(),
            |i: int|
                Seq::new(
                    parts[i].len(),
                    |w: int| discharges@[i].class == DisruptionClass::Anomaly,
                ),
        ).flatten(),
        forall|i: int|
            0 <= i < parts.len() ==> describes_windows(
                f,
                discharges@[i].signals@,
                params.min@,
                params.max@,
                #[trigger] parts[i],
            ),
{
    let all = discharge_views(discharges@);
    let parts = parts_described_by(
        a,
        f,
        all,
        params@,
        dataset_records(dataset),
        dataset_targets(dataset),
    );
    let lists = Seq::new(
        parts.len(),
        |i: int|
            Seq::new(parts[i].len(), |w: int| all[i].class == DisruptionClass::Anomaly),
    );
    let same = Seq::new(
        parts.len(),
        |i: int|
            Seq::new(parts[i].len(), |w: int| discharges@[i].class == DisruptionClass::Anomaly),
    );
    assert forall|i: int| 0 <= i < parts.len() implies #[trigger] lists[i] == same[i] by {
        assert(lists[i] =~= same[i]);
    }
    assert(lists =~= same);
    assert forall|i: int| 0 <= i < parts.len() implies describes_windows(
        f,
        discharges@[i].signals@,
        params.min@,
        params.max@,
        #[trigger] parts[i],
    ) by {
        assert(all[i].signals == discharges@[i].signals@);
    }
    parts
}

/// Labelled records are those of the first discharge, then those of the second, and so
/// on, as in a dataset.
pub proof fn labelled_records_describe_windows<A: Arithmetic>(
    a: A,
    f: Operations,
    discharges: Vec<Discharge>,
    params: NormalizationParams,
    r: LabelledRecords,
) -> (parts: Seq<Seq<Seq<u64>>>)
    requires
        computes(a, f),
        call_ensures(get_records::<A>, (&a, &discharges, &params), r),
    ensures
        parts.len() == discharges@.len(),
        r.rows@.map_values(|row: Vec<u64>| row@) == parts.flatten(),
        r.targets@ == Seq::new(
            parts.len(),
            |i: int|
                Seq::new(
                    parts[i].len(),
                    |w: int| discharges@[i].class == DisruptionClass::Anomaly,
                ),
        ).flatten(),
        forall|i: int|
            0 <= i < parts.len() ==> describes_windows(
                f,
                discharges@[i].signals@,
                params.min@,
                params.max@,
                #[trigger] parts[i],
            ),
{
    let all = discharge_views(discharges@);
    let parts = parts_described_by(a, f, all, params@, views(r.rows@), r.targets@);
    let lists = Seq::new(
        parts.len(),
        |i: int|
            Seq::new(parts[i].len(), |w: int| all[i].class == DisruptionClass::Anomaly),
    );
    let same = Seq::new(
        parts.len(),
        |i: int|
            Seq::new(parts[i].len(), |w: int| discharges@[i].class == DisruptionClass::Anomaly),
    );
    assert forall|i: int| 0 <= i < parts.len() implies #[trigger] lists[i] == same[i] by {
        assert(lists[i] =~= same[i]);
    }
    assert(lists =~= same);
    assert forall|i: int| 0 <= i < parts.len() implies describes_windows(
        f,
        discharges@[i].signals@,
        params.min@,
        params.max@,
        #[trigger] parts[i],
    ) by {
        assert(all[i].signals == discharges@[i].signals@);
    }
    assert(r.rows@.map_values(|row: Vec<u64>| row@) =~= views(r.rows@));
    parts
}

/// The features of signals keep their order and their types, and are those of their
/// values scaled between the extremes held for the type.
pub proof fn all_features_describe_windows<A: Arithmetic>(
    a: A,
    f: Operations,
    signals: Vec<Signal>,
    params: NormalizationParams,
    features: Vec<TypeFeatures>,
    i: int,
    w: int,
)
    requires
        computes(a, f),
        call_ensures(get_all_features::<A>, (&a, &signals, &params), features),
        0 <= i < signals@.len(),
        0 <= w < signals@[i].values@.len() / 16,
    ensures
        features@.len() == signals@.len(),
        features@[i].signal_type == signals@[i].signal_type,
        features@[i].means@.len() == signals@[i].values@.len() / 16,
        features@[i].deviations@.len() == signals@[i].values@.len() / 16,
        forall|record: Seq<u64>|
            record[signals@[i].signal_type.key() - 1] == features@[i].means@[w]
                && record[signals@[i].signal_type.key() + 6] == features@[i].deviations@[w]
                ==> #[trigger] holds_features(f, signals@[i], params.min@, params.max@, w, record),
{
    let all = feature_views(features@);
    assert(features_of(a, signals@[i], params@, all[i]));
    assert forall|record: Seq<u64>|
        record[signals@[i].signal_type.key() - 1] == features@[i].means@[w]
            && record[signals@[i].signal_type.key() + 6]
            == features@[i].deviations@[w] implies #[trigger] holds_features(
        f,
        signals@[i],
        params.min@,
        params.max@,
        w,
        record,
    ) by {
        features_held(a, f, signals@[i], params@, all[i], w, record);
    }
}

} // verus!

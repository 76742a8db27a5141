//! The signals of a discharge: their extremes, their normalization, and the
//! features of their windows.
use std::collections::HashMap;
use vstd::prelude::*;
use vstd::slice::slice_subrange;
use vstd::string::*;

use crate::arithmetic::{
    computes, fft_deviation, fft_deviation_by, is_consistent, is_debug, is_display,
    is_fft_deviation, is_mean, is_minus, is_over, is_scaled, keeps_order, mean, mean_by,
    one_fft_deviation, one_mean, one_scaled_value, scale, scaled_between_zero_and_one, scaled_by,
    Arithmetic, Operations,
};
use crate::doubles::{
    exact, extremes_are_at, highest, highest_bounds, is_finite, is_greatest, is_least, is_nan,
    is_numeric, larger, lowest, lowest_and_highest_are_extreme, lowest_bounds, max, max_of, min,
    min_of, rank, smaller, smaller_and_larger_are_extreme, LARGEST, ONE, SMALLEST,
};
use crate::text::{decimal, decimal_text};

verus! {

broadcast use vstd::std_specs::hash::group_hash_axioms;

/// The number of values in a window.
pub const WINDOW_SIZE: usize = 16;

/// Whether a discharge ended in a disruption.
#[derive(Clone, Copy, Debug, PartialEq, Eq, Structural)]
pub enum DisruptionClass {
    Normal,
    Anomaly,
    Unknown,
}

/// What a signal measures.
#[derive(Clone, Copy, Debug, PartialEq, Eq, Hash, Structural)]
pub enum SignalType {
    CorrientePlasma,
    ModeLock,
    Inductancia,
    Densidad,
    DerivadaEnergiaDiamagnetica,
    PotenciaRadiada,
    PotenciaDeEntrada,
}

impl SignalType {
    /// The number of a signal type: 1 for the first, 7 for the last.
    pub open spec fn key(self) -> u32 {
        match self {
            SignalType::CorrientePlasma => 1,
            SignalType::ModeLock => 2,
            SignalType::Inductancia => 3,
            SignalType::Densidad => 4,
            SignalType::DerivadaEnergiaDiamagnetica => 5,
            SignalType::PotenciaRadiada => 6,
            SignalType::PotenciaDeEntrada => 7,
        }
    }

    /// The number of a signal type, by which it is found in maps and file names.
    pub fn code(&self) -> (code: u32)
        ensures
            code == self.key(),
    {
        match self {
            SignalType::CorrientePlasma => 1,
            SignalType::ModeLock => 2,
            SignalType::Inductancia => 3,
            SignalType::Densidad => 4,
            SignalType::DerivadaEnergiaDiamagnetica => 5,
            SignalType::PotenciaRadiada => 6,
            SignalType::PotenciaDeEntrada => 7,
        }
    }

    /// How many signal types there are.
    pub fn count() -> (n: usize)
        ensures
            n == 7,
    {
        7
    }
}

/// What is computed of a window.
#[derive(Clone, Copy, Debug, PartialEq, Eq, Structural)]
pub enum FeatureType {
    Mean,
    FftStd,
}

impl FeatureType {
    /// How many features there are.
    pub fn count() -> (n: usize)
        ensures
            n == 2,
    {
        2
    }
}

/// A measured signal. The least and the greatest of its values are kept beside them.
#[derive(Clone)]
pub struct Signal {
    pub label: String,
    pub _times: Vec<u64>,
    pub values: Vec<u64>,
    pub class: DisruptionClass,
    pub signal_type: SignalType,
    pub min: u64,
    pub max: u64,
}

/// The signals of one discharge.
pub struct Discharge {
    pub class: DisruptionClass,
    pub signals: Vec<Signal>,
}

/// What a discharge amounts to.
pub struct DischargeView {
    pub class: DisruptionClass,
    pub signals: Seq<Signal>,
}

impl View for Discharge {
    type V = DischargeView;

    open spec fn view(&self) -> DischargeView {
        DischargeView { class: self.class, signals: self.signals@ }
    }
}

/// What discharges amount to, one by one.
pub open spec fn discharge_views(discharges: Seq<Discharge>) -> Seq<DischargeView> {
    discharges.map_values(|discharge: Discharge| discharge@)
}

/// The extremes by which signals are normalized, by the number of the signal type.
#[derive(Clone, Debug)]
pub struct NormalizationParams {
    pub min: HashMap<u32, u64>,
    pub max: HashMap<u32, u64>,
}

/// The least and the greatest value of each signal type, by its number.
pub struct Extremes {
    pub low: Map<u32, u64>,
    pub high: Map<u32, u64>,
}

impl View for NormalizationParams {
    type V = Extremes;

    open spec fn view(&self) -> Extremes {
        Extremes { low: self.min@, high: self.max@ }
    }
}

impl Default for NormalizationParams {
    fn default() -> (params: NormalizationParams)
        ensures
            params@ == (Extremes { low: Map::empty(), high: Map::empty() }),
    {
        NormalizationParams { min: HashMap::new(), max: HashMap::new() }
    }
}

/// One feature of a signal, a value for each of its windows.
pub struct SignalFeatures {
    pub type_: FeatureType,
    pub values: Vec<u64>,
}

/// The window of `values` with the number `k`.
pub open spec fn window(values: Seq<u64>, window_size: nat, k: int) -> Seq<u64> {
    values.subrange(k * window_size, (k + 1) * window_size)
}

/// `means` and `deviations` are the features of the windows of `values`, of which
/// there are as many as fit; values behind the last full window count for nothing.
pub open spec fn are_features<A: Arithmetic>(
    a: A,
    values: Seq<u64>,
    window_size: nat,
    means: Seq<u64>,
    deviations: Seq<u64>,
) -> bool {
    &&& means.len() == values.len() / window_size
    &&& deviations.len() == values.len() / window_size
    &&& forall|k: int|
        0 <= k < means.len() ==> is_mean(a, window(values, window_size, k), #[trigger] means[k])
    &&& forall|k: int|
        0 <= k < deviations.len() ==> is_fft_deviation(
            a,
            window(values, window_size, k),
            #[trigger] deviations[k],
        )
}

/// Each of `scaled` is the value in its place, scaled between `low` and `high`.
pub open spec fn are_scaled<A: Arithmetic>(
    a: A,
    values: Seq<u64>,
    low: u64,
    high: u64,
    scaled: Seq<u64>,
) -> bool {
    &&& scaled.len() == values.len()
    &&& forall|i: int|
        0 <= i < values.len() ==> is_scaled(a, values[i], low, high, #[trigger] scaled[i])
}

/// Each of `normalized` is the signal in its place, normalized by `extremes`.
pub open spec fn are_normalized<A: Arithmetic>(
    a: A,
    signals: Seq<Signal>,
    extremes: Extremes,
    normalized: Seq<Signal>,
) -> bool {
    &&& normalized.len() == signals.len()
    &&& forall|i: int|
        0 <= i < signals.len() ==> signals[i].normalizes_to(a, extremes, #[trigger] normalized[i])
}

/// `normalized` are the signals normalized by the extremes `used`, which are those
/// that were given or, where none were given, those of the signals themselves.
pub open spec fn is_normalization<A: Arithmetic>(
    a: A,
    signals: Seq<Signal>,
    given: Option<Extremes>,
    normalized: Seq<Signal>,
    used: Extremes,
) -> bool {
    &&& used == (match given {
        Some(extremes) => extremes,
        None => extremes(signals),
    })
    &&& are_normalized(a, signals, used, normalized)
}

/// The extremes that are given, where there are any.
pub open spec fn viewed(params: Option<&NormalizationParams>) -> Option<Extremes> {
    match params {
        Some(p) => Some(p@),
        None => None,
    }
}

/// The texts one after the other, with a comma and a space in between.
pub open spec fn listed(texts: Seq<Seq<char>>) -> Seq<char>
    decreases texts.len(),
{
    if texts.len() == 0 {
        Seq::empty()
    } else if texts.len() == 1 {
        texts[0]
    } else {
        listed(texts.drop_last()) + ", "@ + texts.last()
    }
}

/// Each of `texts` is the value in its place, written for debugging.
pub open spec fn are_debug<A: Arithmetic>(a: A, values: Seq<u64>, texts: Seq<Seq<char>>) -> bool {
    &&& texts.len() == values.len()
    &&& forall|i: int| 0 <= i < values.len() ==> is_debug(a, values[i], #[trigger] texts[i])
}

/// The least kept with each of the signals that have the type numbered `kind`.
pub open spec fn lows(signals: Seq<Signal>, kind: u32) -> Seq<u64>
    decreases signals.len(),
{
    if signals.len() == 0 {
        Seq::empty()
    } else {
        let rest = lows(signals.drop_last(), kind);
        if signals.last().signal_type.key() == kind {
            rest.push(signals.last().min)
        } else {
            rest
        }
    }
}

/// The greatest kept with each of the signals that have the type numbered `kind`.
pub open spec fn highs(signals: Seq<Signal>, kind: u32) -> Seq<u64>
    decreases signals.len(),
{
    if signals.len() == 0 {
        Seq::empty()
    } else {
        let rest = highs(signals.drop_last(), kind);
        if signals.last().signal_type.key() == kind {
            rest.push(signals.last().max)
        } else {
            rest
        }
    }
}

/// Whether one of `signals` has the type numbered `kind`.
pub open spec fn has_kind(signals: Seq<Signal>, kind: u32) -> bool {
    exists|i: int| 0 <= i < signals.len() && (#[trigger] signals[i]).signal_type.key() == kind
}

/// The least value of each type that occurs among `signals`.
pub open spec fn low_by_type(signals: Seq<Signal>) -> Map<u32, u64> {
    Map::new(|kind: u32| has_kind(signals, kind), |kind: u32| lowest(lows(signals, kind)))
}

/// The greatest value of each type that occurs among `signals`.
pub open spec fn high_by_type(signals: Seq<Signal>) -> Map<u32, u64> {
    Map::new(|kind: u32| has_kind(signals, kind), |kind: u32| highest(highs(signals, kind)))
}

/// The extremes of each type that occurs among `signals`.
pub open spec fn extremes(signals: Seq<Signal>) -> Extremes {
    Extremes { low: low_by_type(signals), high: high_by_type(signals) }
}

impl Extremes {
    /// Whether there are extremes for the types of all of `signals`.
    pub open spec fn covers(self, signals: Seq<Signal>) -> bool {
        forall|i: int|
            0 <= i < signals.len() ==> {
                &&& self.low.contains_key((#[trigger] signals[i]).signal_type.key())
                &&& self.high.contains_key(signals[i].signal_type.key())
            }
    }
}

impl NormalizationParams {
    /// Takes one more signal into account.
    pub fn widen(&mut self, signal: &Signal)
        ensures
            final(self)@ == (Extremes {
                low: with_low(old(self)@.low, *signal),
                high: with_high(old(self)@.high, *signal),
            }),
    {
        let kind: u32 = signal.signal_type.code();
        let min_entry: u64 = match self.min.get(&kind) {
            Some(x) => *x,
            None => LARGEST,
        };
        self.min.insert(kind, min(min_entry, signal.min));
        let max_entry: u64 = match self.max.get(&kind) {
            Some(x) => *x,
            None => SMALLEST,
        };
        self.max.insert(kind, max(max_entry, signal.max));
    }

    /// The extremes of each type that occurs among `signals`.
    pub fn of(signals: &Vec<Signal>) -> (params: NormalizationParams)
        ensures
            params@ == extremes(signals@),
    {
        let mut params = NormalizationParams::default();
        let mut i: usize = 0;
        proof {
            no_extremes();
            assert(signals@.take(0) =~= Seq::<Signal>::empty());
        }
        while i < signals.len()
            invariant
                i <= signals@.len(),
                params@ == extremes(signals@.take(i as int)),
            decreases signals@.len() - i,
        {
            proof {
                extremes_step(signals@.take(i as int), signals@[i as int]);
                assert(signals@.take(i + 1) =~= signals@.take(i as int).push(signals@[i as int]));
            }
            params.widen(&signals[i]);
            i = i + 1;
        }
        assert(signals@.take(i as int) =~= signals@);
        params
    }

    /// The extremes of each type that occurs among the signals of `discharges`.
    pub fn of_discharges(discharges: &Vec<Discharge>) -> (params: NormalizationParams)
        ensures
            params@ == extremes(all_signals(discharge_views(discharges@))),
    {
        let mut params = NormalizationParams::default();
        let mut i: usize = 0;
        proof {
            no_extremes();
            assert(discharge_views(discharges@.take(0)) =~= Seq::<DischargeView>::empty());
        }
        while i < discharges.len()
            invariant
                i <= discharges@.len(),
                params@ == extremes(all_signals(discharge_views(discharges@.take(i as int)))),
            decreases discharges@.len() - i,
        {
            let signals = &discharges[i].signals;
            let ghost before = all_signals(discharge_views(discharges@.take(i as int)));
            let mut j: usize = 0;
            assert(before + signals@.take(0) =~= before);
            while j < signals.len()
                invariant
                    j <= signals@.len(),
                    params@ == extremes(before + signals@.take(j as int)),
                decreases signals@.len() - j,
            {
                proof {
                    extremes_step(before + signals@.take(j as int), signals@[j as int]);
                    let now = before + signals@.take(j as int);
                    assert(before + signals@.take(j + 1) =~= now.push(signals@[j as int]));
                }
                params.widen(&signals[j]);
                j = j + 1;
            }
            i = i + 1;
            assert(signals@.take(j as int) =~= signals@);
            assert(discharge_views(discharges@.take(i as int)).drop_last() =~= discharge_views(
                discharges@.take(i - 1),
            ));
        }
        assert(discharges@.take(i as int) =~= discharges@);
        params
    }
}

/// The signals of all of `discharges`, one discharge after the other.
pub open spec fn all_signals(discharges: Seq<DischargeView>) -> Seq<Signal>
    decreases discharges.len(),
{
    if discharges.len() == 0 {
        Seq::empty()
    } else {
        all_signals(discharges.drop_last()) + discharges.last().signals
    }
}

/// The least values by type with one more signal.
pub open spec fn with_low(low: Map<u32, u64>, signal: Signal) -> Map<u32, u64> {
    let kind = signal.signal_type.key();
    let known = if low.contains_key(kind) {
        low[kind]
    } else {
        LARGEST
    };
    low.insert(kind, smaller(known, signal.min))
}

/// The greatest values by type with one more signal.
pub open spec fn with_high(high: Map<u32, u64>, signal: Signal) -> Map<u32, u64> {
    let kind = signal.signal_type.key();
    let known = if high.contains_key(kind) {
        high[kind]
    } else {
        SMALLEST
    };
    high.insert(kind, larger(known, signal.max))
}

/// Without signals there are no extremes.
proof fn no_extremes()
    ensures
        low_by_type(Seq::empty()) == Map::<u32, u64>::empty(),
        high_by_type(Seq::empty()) == Map::<u32, u64>::empty(),
{
    assert(low_by_type(Seq::empty()) =~= Map::<u32, u64>::empty());
    assert(high_by_type(Seq::empty()) =~= Map::<u32, u64>::empty());
}

/// Extremes of signals that are gathered over all discharges cover each of these.
pub proof fn gathered_extremes_cover(discharges: Seq<DischargeView>)
    ensures
        forall|i: int|
            0 <= i < discharges.len() ==> extremes(all_signals(discharges)).covers(
                (#[trigger] discharges[i]).signals,
            ),
{
    assert forall|i: int| 0 <= i < discharges.len() implies extremes(
        all_signals(discharges),
    ).covers((#[trigger] discharges[i]).signals) by {
        let signals = discharges[i].signals;
        assert forall|j: int| 0 <= j < signals.len() implies has_kind(
            all_signals(discharges),
            (#[trigger] signals[j]).signal_type.key(),
        ) by {
            place_in_all(discharges, i, j);
        }
    }
}

/// Every signal of every discharge is among all signals.
proof fn place_in_all(discharges: Seq<DischargeView>, i: int, j: int) -> (k: int)
    requires
        0 <= i < discharges.len(),
        0 <= j < discharges[i].signals.len(),
    ensures
        0 <= k < all_signals(discharges).len(),
        all_signals(discharges)[k] == discharges[i].signals[j],
    decreases discharges.len(),
{
    let rest = discharges.drop_last();
    if i < rest.len() {
        place_in_all(rest, i, j)
    } else {
        all_signals(rest).len() + j
    }
}

/// What one more signal changes of the extremes by type.
proof fn extremes_step(signals: Seq<Signal>, signal: Signal)
    ensures
        low_by_type(signals.push(signal)) == with_low(low_by_type(signals), signal),
        high_by_type(signals.push(signal)) == with_high(high_by_type(signals), signal),
{
    let kind = signal.signal_type.key();
    let now = signals.push(signal);
    assert(now.drop_last() =~= signals);
    assert forall|k: u32| has_kind(now, k) == (has_kind(signals, k) || k == kind) by {
        if has_kind(signals, k) {
            let i = choose|i: int|
                0 <= i < signals.len() && (#[trigger] signals[i]).signal_type.key() == k;
            assert(now[i].signal_type.key() == k);
        }
        if k == kind {
            assert(now[signals.len() as int].signal_type.key() == k);
        }
        if has_kind(now, k) && k != kind {
            let i = choose|i: int| 0 <= i < now.len() && (#[trigger] now[i]).signal_type.key() == k;
            assert(signals[i].signal_type.key() == k);
        }
    }
    kinds_without_signals(signals, kind);
    assert(lows(now, kind).drop_last() =~= lows(signals, kind));
    assert(highs(now, kind).drop_last() =~= highs(signals, kind));
    assert(!has_kind(signals, kind) ==> lowest(lows(signals, kind)) == LARGEST);
    assert(!has_kind(signals, kind) ==> highest(highs(signals, kind)) == SMALLEST);
    assert forall|k: u32| k != kind implies #[trigger] lows(now, k) == lows(signals, k)
        && #[trigger] highs(now, k) == highs(signals, k) by {}
    assert(low_by_type(now) =~= with_low(low_by_type(signals), signal));
    assert(high_by_type(now) =~= with_high(high_by_type(signals), signal));
}

/// A type that no signal has gives no extremes.
proof fn kinds_without_signals(signals: Seq<Signal>, kind: u32)
    ensures
        !has_kind(signals, kind) ==> lows(signals, kind).len() == 0 && highs(
            signals,
            kind,
        ).len() == 0,
    decreases signals.len(),
{
    if signals.len() > 0 && !has_kind(signals, kind) {
        let rest = signals.drop_last();
        assert(!has_kind(rest, kind)) by {
            assert forall|i: int| 0 <= i < rest.len() implies (
            #[trigger] rest[i]).signal_type.key() != kind by {
                assert(signals[i].signal_type.key() != kind);
            }
        }
        kinds_without_signals(rest, kind);
        assert(signals[signals.len() - 1].signal_type.key() != kind);
    }
}

impl Signal {
    /// Whether the kept extremes are those of the values.
    pub open spec fn well_formed(self) -> bool {
        &&& self.min == lowest(self.values@)
        &&& self.max == highest(self.values@)
    }

    /// A signal with the given values.
    pub fn new(
        label: String,
        values: Vec<u64>,
        class: DisruptionClass,
        signal_type: SignalType,
    ) -> (signal: Signal)
        ensures
            signal.label == label,
            signal._times@.len() == 0,
            signal.values == values,
            signal.class == class,
            signal.signal_type == signal_type,
            signal.well_formed(),
    {
        let min: u64 = min_of(&values);
        let max: u64 = max_of(&values);
        Signal { label, _times: Vec::new(), values, class, signal_type, min, max }
    }
}

impl Signal {
    /// Scales each value between the kept extremes, and keeps the new extremes.
    pub fn _normalize<A: Arithmetic>(&mut self, a: &A)
        ensures
            old(self).scales_to(*a, old(self).min, old(self).max, *final(self)),
    {
        let values = scale_all(a, &self.values, self.min, self.max);
        self.min = min_of(&values);
        self.max = max_of(&values);
        self.values = values;
    }

    /// The least of the values.
    pub fn _min(&self) -> (r: u64)
        ensures
            r == self.min,
    {
        self.min
    }

    /// The greatest of the values.
    pub fn _max(&self) -> (r: u64)
        ensures
            r == self.max,
    {
        self.max
    }

    /// `scaled` is this signal with its values scaled between `low` and `high`.
    pub open spec fn scales_to<A: Arithmetic>(
        self,
        a: A,
        low: u64,
        high: u64,
        scaled: Signal,
    ) -> bool {
        &&& scaled.label@ == self.label@
        &&& scaled._times@ == self._times@
        &&& scaled.class == self.class
        &&& scaled.signal_type == self.signal_type
        &&& are_scaled(a, self.values@, low, high, scaled.values@)
        &&& scaled.well_formed()
    }

    /// `normalized` is this signal with its values scaled between the extremes
    /// of its type.
    pub open spec fn normalizes_to<A: Arithmetic>(
        self,
        a: A,
        extremes: Extremes,
        normalized: Signal,
    ) -> bool {
        let kind = self.signal_type.key();
        self.scales_to(a, extremes.low[kind], extremes.high[kind], normalized)
    }

    /// Normalizes each of `signals` by `params`.
    pub fn normalize_all<A: Arithmetic>(
        a: &A,
        signals: &Vec<Signal>,
        params: &NormalizationParams,
    ) -> (normalized: Vec<Signal>)
        requires
            params@.covers(signals@),
        ensures
            are_normalized(*a, signals@, params@, normalized@),
    {
        let mut normalized: Vec<Signal> = Vec::new();
        let mut i: usize = 0;
        while i < signals.len()
            invariant
                i <= signals@.len(),
                params@.covers(signals@),
                normalized@.len() == i,
                forall|j: int|
                    0 <= j < i ==> signals@[j].normalizes_to(
                        *a,
                        params@,
                        #[trigger] normalized@[j],
                    ),
            decreases signals@.len() - i,
        {
            let signal = &signals[i];
            let kind: u32 = signal.signal_type.code();
            let global_min: u64 = *params.min.get(&kind).unwrap();
            let global_max: u64 = *params.max.get(&kind).unwrap();
            let values = scale_all(a, &signal.values, global_min, global_max);
            let min: u64 = min_of(&values);
            let max: u64 = max_of(&values);
            let times = signal._times.clone();
            assert(times@ =~= signal._times@);
            normalized.push(
                Signal {
                    label: signal.label.clone(),
                    _times: times,
                    values,
                    class: signal.class,
                    signal_type: signal.signal_type,
                    min,
                    max,
                },
            );
            i = i + 1;
        }
        normalized
    }

    /// Normalizes `signals` by `(x - x_min) / (x_max - x_min)`, where `x_min` and
    /// `x_max` are the extremes that `params` holds for the type of the signal, or,
    /// without `params`, the extremes of all of `signals` that have this type.
    /// Gives back the normalized signals and the extremes that were used.
    pub fn normalize_vec<A: Arithmetic>(
        a: &A,
        signals: Vec<Signal>,
        params: Option<&NormalizationParams>,
    ) -> (r: (Vec<Signal>, NormalizationParams))
        requires
            params matches Some(p) ==> p@.covers(signals@),
        ensures
            is_normalization(*a, signals@, viewed(params), r.0@, r.1@),
    {
        let used = match params {
            Some(p) => NormalizationParams { min: p.min.clone(), max: p.max.clone() },
            None => NormalizationParams::of(&signals),
        };
        assert(used@.covers(signals@)) by {
            assert forall|i: int| 0 <= i < signals@.len() implies has_kind(
                signals@,
                (#[trigger] signals@[i]).signal_type.key(),
            ) by {}
        }
        let normalized = Signal::normalize_all(a, &signals, &used);
        (normalized, used)
    }

    /// The features of the signal's windows: the means of the values, and the
    /// standard deviations of the magnitudes of their frequencies.
    pub fn get_features<A: Arithmetic>(&self, a: &A, window_size: usize) -> (r: (
        SignalFeatures,
        SignalFeatures,
    ))
        requires
            window_size > 0,
        ensures
            r.0.type_ == FeatureType::Mean,
            r.1.type_ == FeatureType::FftStd,
            are_features(*a, self.values@, window_size as nat, r.0.values@, r.1.values@),
    {
        let num_windows: usize = self.values.len() / window_size;
        let mut mean_values: Vec<u64> = Vec::new();
        let mut fft_std_values: Vec<u64> = Vec::new();
        let mut k: usize = 0;
        while k < num_windows
            invariant
                window_size > 0,
                self.values@.len() <= usize::MAX,
                num_windows == self.values@.len() / (window_size as nat),
                k <= num_windows,
                mean_values@.len() == k,
                fft_std_values@.len() == k,
                forall|j: int|
                    0 <= j < k ==> is_mean(
                        *a,
                        window(self.values@, window_size as nat, j),
                        #[trigger] mean_values@[j],
                    ),
                forall|j: int|
                    0 <= j < k ==> is_fft_deviation(
                        *a,
                        window(self.values@, window_size as nat, j),
                        #[trigger] fft_std_values@[j],
                    ),
            decreases num_windows - k,
        {
            proof {
                window_fits(self.values@.len(), window_size as nat, k as int);
            }
            let start: usize = k * window_size;
            let end: usize = (k + 1) * window_size;
            let part = slice_subrange(self.values.as_slice(), start, end);
            let mean_value: u64 = mean(a, part);
            mean_values.push(mean_value);
            let fft_std: u64 = fft_deviation(a, part);
            fft_std_values.push(fft_std);
            k = k + 1;
        }
        (
            SignalFeatures { type_: FeatureType::Mean, values: mean_values },
            SignalFeatures { type_: FeatureType::FftStd, values: fft_std_values },
        )
    }
}

impl Signal {
    /// A description of the signal: its label, its extremes and how many values it has.
    pub fn fmt<A: Arithmetic>(&self, a: &A) -> (r: String)
        ensures
            exists|low: Seq<char>, high: Seq<char>| #[trigger]
                is_display(*a, self.min, low) && #[trigger] is_display(*a, self.max, high) && r@
                    == "Signal { label: "@ + self.label@ + ", min: "@ + low + ", max: "@ + high
                    + " }. Values length: "@ + decimal(self.values@.len()),
    {
        let low = a.display(self.min);
        let high = a.display(self.max);
        assert(is_display(*a, self.min, low@) && is_display(*a, self.max, high@));
        let mut r = String::from_str("Signal { label: ");
        r.append(self.label.as_str());
        r.append(", min: ");
        r.append(low.as_str());
        r.append(", max: ");
        r.append(high.as_str());
        r.append(" }. Values length: ");
        r.append(decimal_text(self.values.len() as u64).as_str());
        r
    }
}

impl FeatureType {
    /// The name of a feature.
    pub open spec fn name(self) -> Seq<char> {
        match self {
            FeatureType::Mean => "Mean"@,
            FeatureType::FftStd => "FftStd"@,
        }
    }
}

impl SignalFeatures {
    /// A description of the feature: its name and its values.
    pub fn fmt<A: Arithmetic>(&self, a: &A) -> (r: String)
        ensures
            exists|texts: Seq<Seq<char>>| #[trigger]
                are_debug(*a, self.values@, texts) && r@ == "SignalFeatures { type: "@
                    + self.type_.name() + ", values: ["@ + listed(texts) + "] }"@,
    {
        let mut r = String::from_str("SignalFeatures { type: ");
        r.append(
            match self.type_ {
                FeatureType::Mean => "Mean",
                FeatureType::FftStd => "FftStd",
            },
        );
        r.append(", values: [");
        let ghost head = r@;
        let ghost mut texts: Seq<Seq<char>> = Seq::empty();
        let mut i: usize = 0;
        assert(r@ =~= head + listed(texts));
        while i < self.values.len()
            invariant
                i <= self.values@.len(),
                are_debug(*a, self.values@.take(i as int), texts),
                r@ == head + listed(texts),
            decreases self.values@.len() - i,
        {
            let text = a.debug(self.values[i]);
            assert(is_debug(*a, self.values@[i as int], text@));
            let ghost before = texts;
            if i > 0 {
                r.append(", ");
            }
            r.append(text.as_str());
            proof {
                texts = before.push(text@);
                assert(texts.drop_last() =~= before);
                assert(listed(texts) =~= if i == 0 {
                    text@
                } else {
                    listed(before) + ", "@ + text@
                });
                assert(i == 0 ==> listed(before) =~= Seq::<char>::empty());
                assert(r@ =~= head + listed(texts));
            }
            i = i + 1;
        }
        assert(self.values@.take(i as int) =~= self.values@);
        r.append("] }");
        r
    }
}

/// A full window ends within the values.
proof fn window_fits(length: nat, window_size: nat, k: int)
    requires
        window_size > 0,
        0 <= k < length / window_size,
    ensures
        0 <= k * window_size <= (k + 1) * window_size <= length,
{
    assert(0 <= k * window_size <= (k + 1) * window_size <= length) by (nonlinear_arith)
        requires
            window_size > 0,
            0 <= k < length / window_size,
    ;
}

/// Scales each of `values` between `low` and `high`.
pub fn scale_all<A: Arithmetic>(a: &A, values: &Vec<u64>, low: u64, high: u64) -> (scaled: Vec<u64>)
    ensures
        are_scaled(*a, values@, low, high, scaled@),
{
    let mut scaled: Vec<u64> = Vec::new();
    let mut i: usize = 0;
    while i < values.len()
        invariant
            i <= values@.len(),
            are_scaled(*a, values@.take(i as int), low, high, scaled@),
        decreases values@.len() - i,
    {
        scaled.push(scale(a, values[i], low, high));
        i = i + 1;
    }
    assert(values@.take(i as int) =~= values@);
    scaled
}

impl Discharge {
    /// A discharge with the given signals.
    pub fn new(class: DisruptionClass, signals: Vec<Signal>) -> (discharge: Discharge)
        ensures
            discharge.class == class,
            discharge.signals == signals,
    {
        Discharge { class, signals }
    }
}

/// The least kept with a signal is among those of its type.
proof fn kept_in_lows(signals: Seq<Signal>, i: int)
    requires
        0 <= i < signals.len(),
    ensures
        lows(signals, signals[i].signal_type.key()).contains(signals[i].min),
    decreases signals.len(),
{
    let kind = signals[i].signal_type.key();
    let rest = signals.drop_last();
    if i < rest.len() {
        kept_in_lows(rest, i);
        let j = choose|j: int|
            0 <= j < lows(rest, kind).len() && lows(rest, kind)[j] == signals[i].min;
        assert(lows(signals, kind)[j] == signals[i].min);
    } else {
        assert(lows(signals, kind)[lows(rest, kind).len() as int] == signals[i].min);
    }
}

/// Each of the lows of a type is kept with a signal of this type.
proof fn source_in_lows(signals: Seq<Signal>, kind: u32, j: int) -> (i: int)
    requires
        0 <= j < lows(signals, kind).len(),
    ensures
        0 <= i < signals.len(),
        signals[i].signal_type.key() == kind,
        signals[i].min == lows(signals, kind)[j],
    decreases signals.len(),
{
    let rest = signals.drop_last();
    if j < lows(rest, kind).len() {
        source_in_lows(rest, kind, j)
    } else {
        signals.len() - 1
    }
}

/// The greatest kept with a signal is among those of its type.
proof fn kept_in_highs(signals: Seq<Signal>, i: int)
    requires
        0 <= i < signals.len(),
    ensures
        highs(signals, signals[i].signal_type.key()).contains(signals[i].max),
    decreases signals.len(),
{
    let kind = signals[i].signal_type.key();
    let rest = signals.drop_last();
    if i < rest.len() {
        kept_in_highs(rest, i);
        let j = choose|j: int|
            0 <= j < highs(rest, kind).len() && highs(rest, kind)[j] == signals[i].max;
        assert(highs(signals, kind)[j] == signals[i].max);
    } else {
        assert(highs(signals, kind)[highs(rest, kind).len() as int] == signals[i].max);
    }
}

/// Each of the highs of a type is kept with a signal of this type.
proof fn source_in_highs(signals: Seq<Signal>, kind: u32, j: int) -> (i: int)
    requires
        0 <= j < highs(signals, kind).len(),
    ensures
        0 <= i < signals.len(),
        signals[i].signal_type.key() == kind,
        signals[i].max == highs(signals, kind)[j],
    decreases signals.len(),
{
    let rest = signals.drop_last();
    if j < highs(rest, kind).len() {
        source_in_highs(rest, kind, j)
    } else {
        signals.len() - 1
    }
}

/// The extremes of a type bound every number among the values of every signal
/// that has this type.
pub proof fn extremes_bound_values(signals: Seq<Signal>, i: int, j: int)
    requires
        forall|k: int| 0 <= k < signals.len() ==> (#[trigger] signals[k]).well_formed(),
        0 <= i < signals.len(),
        0 <= j < signals[i].values@.len(),
        !is_nan(signals[i].values@[j]),
    ensures
        ({
            let kind = signals[i].signal_type.key();
            &&& low_by_type(signals).contains_key(kind)
            &&& high_by_type(signals).contains_key(kind)
            &&& rank(low_by_type(signals)[kind]) <= rank(signals[i].values@[j])
            &&& rank(signals[i].values@[j]) <= rank(high_by_type(signals)[kind])
        }),
{
    let signal = signals[i];
    let kind = signal.signal_type.key();
    assert(has_kind(signals, kind));
    kept_in_lows(signals, i);
    kept_in_highs(signals, i);
    lowest_bounds(signal.values@);
    highest_bounds(signal.values@);
    lowest_bounds(lows(signals, kind));
    highest_bounds(highs(signals, kind));
    let m = choose|m: int|
        0 <= m < lows(signals, kind).len() && lows(signals, kind)[m] == signal.min;
    assert(!is_nan(lows(signals, kind)[m]));
    let m = choose|m: int|
        0 <= m < highs(signals, kind).len() && highs(signals, kind)[m] == signal.max;
    assert(!is_nan(highs(signals, kind)[m]));
}

/// The extremes of a type are values of signals that have this type, unless they
/// are the extremes of all finite numbers.
pub proof fn extremes_are_values(signals: Seq<Signal>, kind: u32)
    requires
        forall|k: int| 0 <= k < signals.len() ==> (#[trigger] signals[k]).well_formed(),
        has_kind(signals, kind),
    ensures
        low_by_type(signals)[kind] == LARGEST || exists|i: int, j: int|
            0 <= i < signals.len() && 0 <= j < signals[i].values@.len()
                && signals[i].signal_type.key() == kind && #[trigger] signals[i].values@[j]
                == low_by_type(signals)[kind],
        high_by_type(signals)[kind] == SMALLEST || exists|i: int, j: int|
            0 <= i < signals.len() && 0 <= j < signals[i].values@.len()
                && signals[i].signal_type.key() == kind && #[trigger] signals[i].values@[j]
                == high_by_type(signals)[kind],
{
    lowest_bounds(lows(signals, kind));
    highest_bounds(highs(signals, kind));
    let low = low_by_type(signals)[kind];
    if low != LARGEST {
        let m = choose|m: int|
            0 <= m < lows(signals, kind).len() && lows(signals, kind)[m] == low;
        let i = source_in_lows(signals, kind, m);
        lowest_bounds(signals[i].values@);
        let j = choose|j: int|
            0 <= j < signals[i].values@.len() && signals[i].values@[j] == low;
        assert(signals[i].values@[j] == low);
    }
    let high = high_by_type(signals)[kind];
    if high != SMALLEST {
        let m = choose|m: int|
            0 <= m < highs(signals, kind).len() && highs(signals, kind)[m] == high;
        let i = source_in_highs(signals, kind, m);
        highest_bounds(signals[i].values@);
        let j = choose|j: int|
            0 <= j < signals[i].values@.len() && signals[i].values@[j] == high;
        assert(signals[i].values@[j] == high);
    }
}

/// The windows of some values follow each other without gaps and without sharing
/// values, from the first value on.
pub proof fn windows_tile_values(values: Seq<u64>, window_size: nat, j: int)
    requires
        window_size > 0,
        0 <= j < (values.len() / window_size) * window_size,
    ensures
        0 <= j / window_size as int,
        j / (window_size as int) < values.len() / window_size,
        window(values, window_size, j / window_size as int).len() == window_size,
        window(values, window_size, j / window_size as int)[j % window_size as int] == values[j],
{
    let w = window_size as int;
    let n = values.len() / window_size;
    let k = j / w;
    assert(0 <= k < n && k * w + j % w == j && 0 <= j % w < w) by (nonlinear_arith)
        requires
            w > 0,
            0 <= j < n * w,
            k == j / w,
    ;
    window_fits(values.len(), window_size, k);
    assert((k + 1) * w == k * w + w) by (nonlinear_arith);
}

/// The features of values put one after the other, where the first of them fill
/// their windows, are the features of the first and then those of the second.
/// Where the second do not fill a window, they change nothing.
pub proof fn features_follow_each_other<A: Arithmetic>(
    a: A,
    first: Seq<u64>,
    second: Seq<u64>,
    window_size: nat,
    means: Seq<u64>,
    deviations: Seq<u64>,
)
    requires
        window_size > 0,
        first.len() % window_size == 0,
    ensures
        are_features(a, first + second, window_size, means, deviations) <==> ({
            let n = (first.len() / window_size) as int;
            &&& n <= means.len()
            &&& n <= deviations.len()
            &&& are_features(a, first, window_size, means.take(n), deviations.take(n))
            &&& are_features(a, second, window_size, means.skip(n), deviations.skip(n))
        }),
        second.len() < window_size ==> (are_features(
            a,
            first + second,
            window_size,
            means,
            deviations,
        ) <==> are_features(a, first, window_size, means, deviations)),
{
    let w = window_size as int;
    let n = first.len() as int / w;
    let m = second.len() as int / w;
    let both = first + second;
    let f = first.len() as int;
    let s = second.len() as int;
    assert(n * w == f && both.len() as int / w == n + m && (s < w ==> m == 0)) by (nonlinear_arith)
        requires
            w > 0,
            f % w == 0,
            f >= 0,
            s >= 0,
            n == f / w,
            m == s / w,
            both.len() == f + s,
    ;
    assert forall|k: int| 0 <= k < n implies #[trigger] window(both, window_size, k) == window(
        first,
        window_size,
        k,
    ) by {
        window_fits(first.len(), window_size, k);
        assert(window(both, window_size, k) =~= window(first, window_size, k));
    }
    assert forall|k: int| 0 <= k < m implies #[trigger] window(second, window_size, k) == window(
        both,
        window_size,
        n + k,
    ) by {
        window_fits(second.len(), window_size, k);
        assert((n + k) * w == f + k * w && (n + k + 1) * w == f + (k + 1) * w) by (nonlinear_arith)
            requires
                n * w == f,
        ;
        assert(window(second, window_size, k) =~= window(both, window_size, n + k));
    }
    if are_features(a, both, window_size, means, deviations) {
        split_features(a, first, second, window_size, means, deviations);
    }
    if n <= means.len() && n <= deviations.len() && are_features(
        a,
        first,
        window_size,
        means.take(n),
        deviations.take(n),
    ) && are_features(a, second, window_size, means.skip(n), deviations.skip(n)) {
        assert forall|k: int| 0 <= k < means.len() implies is_mean(
            a,
            window(both, window_size, k),
            #[trigger] means[k],
        ) by {
            if k < n {
                assert(means.take(n)[k] == means[k]);
            } else {
                assert(means.skip(n)[k - n] == means[k]);
                assert(window(second, window_size, k - n) == window(both, window_size, k));
            }
        }
        assert forall|k: int| 0 <= k < deviations.len() implies is_fft_deviation(
            a,
            window(both, window_size, k),
            #[trigger] deviations[k],
        ) by {
            if k < n {
                assert(deviations.take(n)[k] == deviations[k]);
            } else {
                assert(deviations.skip(n)[k - n] == deviations[k]);
                assert(window(second, window_size, k - n) == window(both, window_size, k));
            }
        }
    }
    if s < w {
        if means.len() == n && deviations.len() == n {
            assert(means.take(n) =~= means);
            assert(deviations.take(n) =~= deviations);
        }
    }
}

/// The features of values put one after the other hold those of both.
proof fn split_features<A: Arithmetic>(
    a: A,
    first: Seq<u64>,
    second: Seq<u64>,
    window_size: nat,
    means: Seq<u64>,
    deviations: Seq<u64>,
)
    requires
        window_size > 0,
        are_features(a, first + second, window_size, means, deviations),
        (first + second).len() / window_size == first.len() / window_size + second.len()
            / window_size,
        forall|k: int|
            0 <= k < first.len() / window_size ==> #[trigger] window(first + second, window_size, k)
                == window(first, window_size, k),
        forall|k: int|
            0 <= k < second.len() / window_size ==> #[trigger] window(second, window_size, k)
                == window(first + second, window_size, first.len() / window_size + k),
    ensures
        ({
            let n = (first.len() / window_size) as int;
            &&& n <= means.len()
            &&& n <= deviations.len()
            &&& are_features(a, first, window_size, means.take(n), deviations.take(n))
            &&& are_features(a, second, window_size, means.skip(n), deviations.skip(n))
        }),
{
    let n = (first.len() / window_size) as int;
    let both = first + second;
    assert forall|k: int| 0 <= k < n implies is_mean(
        a,
        window(first, window_size, k),
        #[trigger] means.take(n)[k],
    ) by {
        assert(is_mean(a, window(both, window_size, k), means[k]));
    }
    assert forall|k: int| 0 <= k < n implies is_fft_deviation(
        a,
        window(first, window_size, k),
        #[trigger] deviations.take(n)[k],
    ) by {
        assert(is_fft_deviation(a, window(both, window_size, k), deviations[k]));
    }
    assert forall|k: int| 0 <= k < means.len() - n implies is_mean(
        a,
        window(second, window_size, k),
        #[trigger] means.skip(n)[k],
    ) by {
        assert(is_mean(a, window(both, window_size, n + k), means[n + k]));
    }
    assert forall|k: int| 0 <= k < deviations.len() - n implies is_fft_deviation(
        a,
        window(second, window_size, k),
        #[trigger] deviations.skip(n)[k],
    ) by {
        assert(is_fft_deviation(a, window(both, window_size, n + k), deviations[n + k]));
    }
}

/// Values have the same features every time, where equal arguments give equal results.
pub proof fn features_are_determined<A: Arithmetic>(
    a: A,
    values: Seq<u64>,
    window_size: nat,
    means: Seq<u64>,
    deviations: Seq<u64>,
    other_means: Seq<u64>,
    other_deviations: Seq<u64>,
)
    requires
        is_consistent(a),
        are_features(a, values, window_size, means, deviations),
        are_features(a, values, window_size, other_means, other_deviations),
    ensures
        means == other_means,
        deviations == other_deviations,
{
    assert forall|k: int| 0 <= k < means.len() implies #[trigger] means[k] == other_means[k] by {
        one_mean(a, window(values, window_size, k), means[k], other_means[k]);
    }
    assert forall|k: int| 0 <= k < deviations.len() implies #[trigger] deviations[k]
        == other_deviations[k] by {
        one_fft_deviation(
            a,
            window(values, window_size, k),
            deviations[k],
            other_deviations[k],
        );
    }
    assert(means =~= other_means);
    assert(deviations =~= other_deviations);
}

/// Where equal arguments give equal results and the first of two lists of values
/// fills its windows, the features of both together are the features that the
/// first has alone and then those that the second has alone.
pub proof fn features_of_both<A: Arithmetic>(
    a: A,
    first: Seq<u64>,
    second: Seq<u64>,
    window_size: nat,
    features: (Seq<u64>, Seq<u64>),
    of_first: (Seq<u64>, Seq<u64>),
    of_second: (Seq<u64>, Seq<u64>),
)
    requires
        is_consistent(a),
        window_size > 0,
        first.len() % window_size == 0,
        are_features(a, first + second, window_size, features.0, features.1),
        are_features(a, first, window_size, of_first.0, of_first.1),
        are_features(a, second, window_size, of_second.0, of_second.1),
    ensures
        features.0 == of_first.0 + of_second.0,
        features.1 == of_first.1 + of_second.1,
{
    let n = (first.len() / window_size) as int;
    let (means, deviations) = features;
    features_follow_each_other(a, first, second, window_size, means, deviations);
    features_are_determined(
        a,
        first,
        window_size,
        means.take(n),
        deviations.take(n),
        of_first.0,
        of_first.1,
    );
    features_are_determined(
        a,
        second,
        window_size,
        means.skip(n),
        deviations.skip(n),
        of_second.0,
        of_second.1,
    );
    assert(means =~= means.take(n) + means.skip(n));
    assert(deviations =~= deviations.take(n) + deviations.skip(n));
}

/// Values are scaled in the same way every time, where equal arguments give equal results.
pub proof fn scaling_is_determined<A: Arithmetic>(
    a: A,
    values: Seq<u64>,
    low: u64,
    high: u64,
    scaled: Seq<u64>,
    other: Seq<u64>,
)
    requires
        is_consistent(a),
        are_scaled(a, values, low, high, scaled),
        are_scaled(a, values, low, high, other),
    ensures
        scaled == other,
{
    assert forall|i: int| 0 <= i < values.len() implies #[trigger] scaled[i] == other[i] by {
        one_scaled_value(a, values[i], low, high, scaled[i], other[i]);
    }
    assert(scaled =~= other);
}

/// The extremes that a normalization used can be fed back: they cover the signals,
/// and what the normalization by them may give is just what the normalization by
/// the signals' own extremes may give.
pub proof fn extremes_fed_back<A: Arithmetic>(
    a: A,
    signals: Seq<Signal>,
    normalized: Seq<Signal>,
    used: Extremes,
    other: Seq<Signal>,
    other_used: Extremes,
)
    requires
        is_normalization(a, signals, None, normalized, used),
    ensures
        used.covers(signals),
        is_normalization(a, signals, Some(used), other, other_used) <==> is_normalization(
            a,
            signals,
            None,
            other,
            other_used,
        ),
{
    own_extremes_cover(signals);
}

/// The extremes of some signals cover them.
proof fn own_extremes_cover(signals: Seq<Signal>)
    ensures
        extremes(signals).covers(signals),
{
    assert forall|i: int| 0 <= i < signals.len() implies has_kind(
        signals,
        (#[trigger] signals[i]).signal_type.key(),
    ) by {}
}

/// Normalizing again by the extremes that were used gives the same signals and the
/// same extremes, where equal arguments give equal results.
pub proof fn extremes_fed_back_reproduce<A: Arithmetic>(
    a: A,
    signals: Seq<Signal>,
    normalized: Seq<Signal>,
    used: Extremes,
    again: Seq<Signal>,
    used_again: Extremes,
)
    requires
        is_consistent(a),
        is_normalization(a, signals, None, normalized, used),
        is_normalization(a, signals, Some(used), again, used_again),
    ensures
        used_again == used,
        again.len() == normalized.len(),
        forall|i: int|
            0 <= i < normalized.len() ==> (#[trigger] again[i]).same_as(normalized[i]),
{
    assert forall|i: int| 0 <= i < normalized.len() implies (#[trigger] again[i]).same_as(
        normalized[i],
    ) by {
        let signal = signals[i];
        let kind = signal.signal_type.key();
        assert(signal.normalizes_to(a, used, normalized[i]));
        assert(signal.normalizes_to(a, used, again[i]));
        scaling_is_determined(
            a,
            signal.values@,
            used.low[kind],
            used.high[kind],
            normalized[i].values@,
            again[i].values@,
        );
    }
}

impl Signal {
    /// Whether the two signals have the same label, times, values, class, type and extremes.
    pub open spec fn same_as(self, other: Signal) -> bool {
        &&& self.label@ == other.label@
        &&& self._times@ == other._times@
        &&& self.values@ == other.values@
        &&& self.class == other.class
        &&& self.signal_type == other.signal_type
        &&& self.min == other.min
        &&& self.max == other.max
    }
}

/// Whether the signals of both lists agree, one by one, in their types, values and
/// kept extremes.
pub open spec fn same_measurements(s: Seq<Signal>, t: Seq<Signal>) -> bool {
    &&& s.len() == t.len()
    &&& forall|i: int|
        0 <= i < s.len() ==> {
            &&& (#[trigger] s[i]).signal_type == t[i].signal_type
            &&& s[i].values@ == t[i].values@
            &&& s[i].min == t[i].min
            &&& s[i].max == t[i].max
        }
}

/// The extremes of signals depend on their types and values alone: neither labels
/// nor classes have an influence.
pub proof fn measurements_decide_extremes(s: Seq<Signal>, t: Seq<Signal>)
    requires
        same_measurements(s, t),
    ensures
        extremes(s) == extremes(t),
{
    assert forall|kind: u32| #[trigger] has_kind(s, kind) == has_kind(t, kind) by {
        if has_kind(s, kind) {
            let i = choose|i: int| 0 <= i < s.len() && (#[trigger] s[i]).signal_type.key() == kind;
            assert(t[i].signal_type.key() == kind);
        }
        if has_kind(t, kind) {
            let i = choose|i: int| 0 <= i < t.len() && (#[trigger] t[i]).signal_type.key() == kind;
            assert(s[i].signal_type.key() == kind);
        }
    }
    assert forall|kind: u32| #[trigger] lows(s, kind) == lows(t, kind) by {
        same_lows_and_highs(s, t, kind);
    }
    assert forall|kind: u32| #[trigger] highs(s, kind) == highs(t, kind) by {
        same_lows_and_highs(s, t, kind);
    }
    assert(low_by_type(s) =~= low_by_type(t));
    assert(high_by_type(s) =~= high_by_type(t));
}

/// Signals that agree in their types and extremes have the same extremes of a type.
proof fn same_lows_and_highs(s: Seq<Signal>, t: Seq<Signal>, kind: u32)
    requires
        same_measurements(s, t),
    ensures
        lows(s, kind) == lows(t, kind),
        highs(s, kind) == highs(t, kind),
    decreases s.len(),
{
    if s.len() > 0 {
        let p = s.drop_last();
        let q = t.drop_last();
        assert forall|i: int| 0 <= i < p.len() implies (#[trigger] p[i]).signal_type
            == q[i].signal_type && p[i].values@ == q[i].values@ && p[i].min == q[i].min && p[i].max
            == q[i].max by {
            assert(s[i].signal_type == t[i].signal_type);
        }
        same_lows_and_highs(p, q, kind);
        assert(s[s.len() - 1].signal_type == t[s.len() - 1].signal_type);
    }
}

/// Whether `order` names each of the first `n` places once.
pub open spec fn is_order(order: Seq<int>, n: nat) -> bool {
    &&& order.len() == n
    &&& order.no_duplicates()
    &&& forall|i: int| 0 <= i < n ==> 0 <= #[trigger] order[i] < n
    &&& forall|j: int| 0 <= j < n ==> #[trigger] order.contains(j)
}

/// `t` holds the signals of `s` in the given order.
pub open spec fn is_reordered(s: Seq<Signal>, t: Seq<Signal>, order: Seq<int>) -> bool {
    &&& is_order(order, s.len())
    &&& t.len() == s.len()
    &&& forall|i: int| 0 <= i < t.len() ==> #[trigger] t[i] == s[order[i]]
}

/// Whether no two of the signals have the same type.
pub open spec fn have_different_types(signals: Seq<Signal>) -> bool {
    forall|i: int, j: int|
        0 <= i < j < signals.len() ==> (#[trigger] signals[i]).signal_type != (
        #[trigger] signals[j]).signal_type
}

/// The order in which the signals inside each discharge are given has no influence
/// on the gathered extremes, where their types differ.
pub proof fn order_of_signals_leaves_extremes(
    discharges: Seq<DischargeView>,
    others: Seq<DischargeView>,
    orders: Seq<Seq<int>>,
)
    requires
        others.len() == discharges.len(),
        orders.len() == discharges.len(),
        forall|k: int|
            0 <= k < discharges.len() ==> have_different_types((#[trigger] discharges[k]).signals)
                && is_reordered(discharges[k].signals, others[k].signals, orders[k]),
    ensures
        extremes(all_signals(discharges)) == extremes(all_signals(others)),
{
    let s = all_signals(discharges);
    let t = all_signals(others);
    assert forall|kind: u32| #[trigger] lows(s, kind) == lows(t, kind) by {
        same_lows_in_order(discharges, others, orders, kind);
    }
    assert forall|kind: u32| #[trigger] highs(s, kind) == highs(t, kind) by {
        same_lows_in_order(discharges, others, orders, kind);
    }
    assert forall|kind: u32| #[trigger] has_kind(s, kind) == has_kind(t, kind) by {
        same_lows_in_order(discharges, others, orders, kind);
        kinds_have_lows(s, kind);
        kinds_have_lows(t, kind);
    }
    assert(low_by_type(s) =~= low_by_type(t));
    assert(high_by_type(s) =~= high_by_type(t));
}

/// A type has lows where a signal has this type.
proof fn kinds_have_lows(signals: Seq<Signal>, kind: u32)
    ensures
        has_kind(signals, kind) <==> lows(signals, kind).len() > 0,
{
    kinds_without_signals(signals, kind);
    if has_kind(signals, kind) {
        let i = choose|i: int|
            0 <= i < signals.len() && (#[trigger] signals[i]).signal_type.key() == kind;
        kept_in_lows(signals, i);
    }
}

/// Extremes of a type are gathered in the order of the discharges.
proof fn same_lows_in_order(
    discharges: Seq<DischargeView>,
    others: Seq<DischargeView>,
    orders: Seq<Seq<int>>,
    kind: u32,
)
    requires
        others.len() == discharges.len(),
        orders.len() == discharges.len(),
        forall|k: int|
            0 <= k < discharges.len() ==> have_different_types((#[trigger] discharges[k]).signals)
                && is_reordered(discharges[k].signals, others[k].signals, orders[k]),
    ensures
        lows(all_signals(discharges), kind) == lows(all_signals(others), kind),
        highs(all_signals(discharges), kind) == highs(all_signals(others), kind),
    decreases discharges.len(),
{
    if discharges.len() > 0 {
        let last = discharges.len() - 1;
        let d = discharges[last].signals;
        let e = others[last].signals;
        let p = discharges.drop_last();
        let q = others.drop_last();
        assert forall|k: int| 0 <= k < p.len() implies have_different_types(
            (#[trigger] p[k]).signals,
        ) && is_reordered(p[k].signals, q[k].signals, orders.drop_last()[k]) by {
            assert(have_different_types(discharges[k].signals));
        }
        same_lows_in_order(p, q, orders.drop_last(), kind);
        lows_in_turn(all_signals(p), d, kind);
        lows_in_turn(all_signals(q), e, kind);
        lone_low_moves(d, e, orders[last], kind);
    }
}

/// The extremes of a type of signals put one after the other.
proof fn lows_in_turn(s: Seq<Signal>, t: Seq<Signal>, kind: u32)
    ensures
        lows(s + t, kind) == lows(s, kind) + lows(t, kind),
        highs(s + t, kind) == highs(s, kind) + highs(t, kind),
    decreases t.len(),
{
    if t.len() == 0 {
        assert(s + t =~= s);
        assert(lows(s, kind) + lows(t, kind) =~= lows(s, kind));
        assert(highs(s, kind) + highs(t, kind) =~= highs(s, kind));
    } else {
        assert((s + t).drop_last() =~= s + t.drop_last());
        assert((s + t).last() == t.last());
        lows_in_turn(s, t.drop_last(), kind);
        assert(lows(s + t, kind) =~= lows(s, kind) + lows(t, kind));
        assert(highs(s + t, kind) =~= highs(s, kind) + highs(t, kind));
    }
}

/// Signals of different types have the same extremes of a type in every order.
proof fn lone_low_moves(s: Seq<Signal>, t: Seq<Signal>, order: Seq<int>, kind: u32)
    requires
        have_different_types(s),
        is_reordered(s, t, order),
    ensures
        lows(s, kind) == lows(t, kind),
        highs(s, kind) == highs(t, kind),
{
    if has_kind(s, kind) {
        let i = choose|i: int| 0 <= i < s.len() && (#[trigger] s[i]).signal_type.key() == kind;
        lone_low(s, i);
        assert(order.contains(i));
        let m = order.index_of(i);
        assert(t[m] == s[order[m]]);
        assert forall|j: int, k: int| 0 <= j < k < t.len() implies (#[trigger] t[j]).signal_type
            != (#[trigger] t[k]).signal_type by {
            assert(t[j] == s[order[j]] && t[k] == s[order[k]]);
            assert(order[j] != order[k]);
            if order[j] < order[k] {
                assert(s[order[j]].signal_type != s[order[k]].signal_type);
            } else {
                assert(s[order[k]].signal_type != s[order[j]].signal_type);
            }
        }
        lone_low(t, m);
    } else {
        assert(!has_kind(t, kind)) by {
            assert forall|j: int| 0 <= j < t.len() implies (#[trigger] t[j]).signal_type.key()
                != kind by {
                assert(t[j] == s[order[j]]);
            }
        }
        kinds_without_signals(s, kind);
        kinds_without_signals(t, kind);
        assert(lows(s, kind) =~= lows(t, kind));
        assert(highs(s, kind) =~= highs(t, kind));
    }
}

/// The only signal of a type gives the only extremes of this type.
proof fn lone_low(signals: Seq<Signal>, i: int)
    requires
        have_different_types(signals),
        0 <= i < signals.len(),
    ensures
        lows(signals, signals[i].signal_type.key()) == seq![signals[i].min],
        highs(signals, signals[i].signal_type.key()) == seq![signals[i].max],
    decreases signals.len(),
{
    let kind = signals[i].signal_type.key();
    let rest = signals.drop_last();
    let last = signals.len() - 1;
    assert forall|j: int, k: int| 0 <= j < k < rest.len() implies (#[trigger] rest[j]).signal_type
        != (#[trigger] rest[k]).signal_type by {
        assert(signals[j].signal_type != signals[k].signal_type);
    }
    if i < last {
        lone_low(rest, i);
        assert(signals[i].signal_type != signals[last].signal_type);
        keys_tell_types_apart(signals[i].signal_type, signals[last].signal_type);
    } else {
        assert(!has_kind(rest, kind)) by {
            assert forall|j: int| 0 <= j < rest.len() implies (
            #[trigger] rest[j]).signal_type.key() != kind by {
                assert(signals[j].signal_type != signals[last].signal_type);
                keys_tell_types_apart(signals[j].signal_type, signals[last].signal_type);
            }
        }
        kinds_without_signals(rest, kind);
        assert(lows(signals, kind) =~= seq![signals[i].min]);
        assert(highs(signals, kind) =~= seq![signals[i].max]);
    }
}

/// A signal of finite values that are not all equal, and whose extremes are not too
/// far apart to have a finite difference, has values from zero to one once it is
/// normalized, with zero as the least and one as the greatest. Normalizing it a
/// second time changes nothing: each value stays equal to what it was. This rests
/// on the arithmetic keeping the order of numbers.
pub proof fn normalizing_twice_changes_nothing<A: Arithmetic>(
    a: A,
    signal: Signal,
    once: Signal,
    twice: Signal,
)
    requires
        keeps_order(a),
        signal.well_formed(),
        forall|i: int| 0 <= i < signal.values@.len() ==> is_finite(#[trigger] signal.values@[i]),
        rank(signal.min) < rank(signal.max),
        forall|span: u64| #[trigger]
            is_minus(a, signal.max, signal.min, span) ==> is_finite(span),
        signal.scales_to(a, signal.min, signal.max, once),
        once.scales_to(a, once.min, once.max, twice),
    ensures
        forall|i: int|
            0 <= i < once.values@.len() ==> !is_nan(#[trigger] once.values@[i]) && 0 <= rank(
                once.values@[i],
            ) <= rank(ONE),
        rank(once.min) == 0,
        rank(once.max) == rank(ONE),
        twice.values@.len() == once.values@.len(),
        forall|i: int|
            0 <= i < twice.values@.len() ==> !is_nan(#[trigger] twice.values@[i]) && rank(
                twice.values@[i],
            ) == rank(once.values@[i]),
        rank(twice.min) == rank(once.min),
        rank(twice.max) == rank(once.max),
        twice.label@ == once.label@,
        twice._times@ == once._times@,
        twice.class == once.class,
        twice.signal_type == once.signal_type,
{
    let values = signal.values@;
    let first = once.values@;
    let second = twice.values@;
    lowest_bounds(values);
    highest_bounds(values);
    assert(values.contains(signal.min)) by {
        if signal.min == LARGEST && signal.max != SMALLEST {
            let k = choose|k: int| 0 <= k < values.len() && values[k] == signal.max;
            assert(is_finite(values[k]));
        }
    }
    assert(values.contains(signal.max)) by {
        if signal.max == SMALLEST {
            let k = choose|k: int| 0 <= k < values.len() && values[k] == signal.min;
            assert(is_finite(values[k]));
        }
    }
    let i = choose|i: int| 0 <= i < values.len() && values[i] == signal.min;
    let j = choose|j: int| 0 <= j < values.len() && values[j] == signal.max;
    assert forall|k: int| 0 <= k < first.len() implies {
        &&& !is_nan(#[trigger] first[k])
        &&& 0 <= rank(first[k]) <= rank(ONE)
        &&& rank(values[k]) == rank(signal.min) ==> rank(first[k]) == 0
        &&& rank(values[k]) == rank(signal.max) ==> rank(first[k]) == rank(ONE)
    } by {
        assert(is_finite(values[k]));
        assert(is_finite(values[i]) && is_finite(values[j]));
        scaled_between_zero_and_one(a, values[k], signal.min, signal.max, first[k]);
    }
    assert(rank(first[i]) == 0 && rank(first[j]) == rank(ONE));
    extremes_are_at(first, i, j);
    lowest_bounds(first);
    highest_bounds(first);
    assert forall|k: int| 0 <= k < second.len() implies !is_nan(#[trigger] second[k]) && rank(
        second[k],
    ) == rank(first[k]) by {
        assert(!is_nan(first[k]) && 0 <= rank(first[k]) <= rank(ONE));
        let (offset, span) = choose|offset: u64, span: u64| #[trigger]
            is_minus(a, first[k], once.min, offset) && #[trigger] is_minus(
                a,
                once.max,
                once.min,
                span,
            ) && is_over(a, offset, span, second[k]);
        assert(rank(offset) == rank(first[k]));
        assert(rank(span) == rank(ONE));
    }
    extremes_are_at(second, i, j);
}

/// Different signal types have different numbers, from 1 to 7.
pub proof fn keys_tell_types_apart(s: SignalType, t: SignalType)
    ensures
        1 <= s.key() <= 7,
        s.key() == t.key() ==> s == t,
{
}

/// The signal types are numbered from 1 to 7 in their order, in contracts and in fact.
pub proof fn types_have_their_numbers(signal_type: SignalType, code: u32)
    requires
        call_ensures(SignalType::code, (&signal_type,), code),
    ensures
        code == signal_type.key(),
        signal_type == SignalType::CorrientePlasma <==> code == 1,
        signal_type == SignalType::ModeLock <==> code == 2,
        signal_type == SignalType::Inductancia <==> code == 3,
        signal_type == SignalType::Densidad <==> code == 4,
        signal_type == SignalType::DerivadaEnergiaDiamagnetica <==> code == 5,
        signal_type == SignalType::PotenciaRadiada <==> code == 6,
        signal_type == SignalType::PotenciaDeEntrada <==> code == 7,
{
}

/// As many signal types are counted as there are numbers for them: the number of a
/// type never exceeds the count, and every number up to the count is one of a type.
pub proof fn types_are_counted(count: usize, n: u32)
    requires
        call_ensures(SignalType::count, (), count),
    ensures
        1 <= n <= count <==> exists|signal_type: SignalType| (#[trigger] signal_type.key()) == n,
{
    assert(SignalType::CorrientePlasma.key() == 1);
    assert(SignalType::ModeLock.key() == 2);
    assert(SignalType::Inductancia.key() == 3);
    assert(SignalType::Densidad.key() == 4);
    assert(SignalType::DerivadaEnergiaDiamagnetica.key() == 5);
    assert(SignalType::PotenciaRadiada.key() == 6);
    assert(SignalType::PotenciaDeEntrada.key() == 7);
}

/// The names of the features are told apart and are those of the variants.
pub proof fn features_have_their_names()
    ensures
        FeatureType::Mean.name() == seq!['M', 'e', 'a', 'n'],
        FeatureType::FftStd.name() == seq!['F', 'f', 't', 'S', 't', 'd'],
        forall|count: usize| #[trigger] call_ensures(FeatureType::count, (), count) ==> count == 2,
{
    reveal_strlit("Mean");
    reveal_strlit("FftStd");
    assert(FeatureType::Mean.name() =~= seq!['M', 'e', 'a', 'n']);
    assert(FeatureType::FftStd.name() =~= seq!['F', 'f', 't', 'S', 't', 'd']);
}

/// A new signal holds what it is given, and keeps the least and the greatest of the
/// numbers among its values.
pub proof fn new_signals_keep_their_extremes(
    label: String,
    values: Vec<u64>,
    class: DisruptionClass,
    signal_type: SignalType,
    signal: Signal,
)
    requires
        call_ensures(Signal::new, (label, values, class, signal_type), signal),
    ensures
        signal.label@ == label@,
        signal._times@.len() == 0,
        signal.values@ == values@,
        signal.class == class,
        signal.signal_type == signal_type,
        is_least(values@, signal.min),
        is_greatest(values@, signal.max),
{
    lowest_and_highest_are_extreme(values@);
}

/// The extremes that are asked of a signal are those that it keeps.
pub proof fn kept_extremes_are_told(signal: Signal, low: u64, high: u64)
    requires
        call_ensures(Signal::_min, (&signal,), low),
        call_ensures(Signal::_max, (&signal,), high),
    ensures
        low == signal.min && high == signal.max,
{
}

/// Whether `scaled` is `signal` with each of its values as its distance from `low` over
/// the distance of `high` from `low`, and with the extremes of these values.
pub open spec fn is_rescaled(
    f: Operations,
    signal: Signal,
    low: u64,
    high: u64,
    scaled: Signal,
) -> bool {
    &&& scaled.label@ == signal.label@
    &&& scaled._times@ == signal._times@
    &&& scaled.class == signal.class
    &&& scaled.signal_type == signal.signal_type
    &&& scaled.values@ == signal.values@.map_values(
        |x: u64| (f.over)((f.minus)(x, low), (f.minus)(high, low)),
    )
    &&& is_least(scaled.values@, scaled.min)
    &&& is_greatest(scaled.values@, scaled.max)
}

/// What it is for values to be scaled.
pub proof fn values_scaled_by<A: Arithmetic>(
    a: A,
    f: Operations,
    values: Seq<u64>,
    low: u64,
    high: u64,
    scaled: Seq<u64>,
)
    requires
        computes(a, f),
        are_scaled(a, values, low, high, scaled),
    ensures
        scaled == values.map_values(
            |x: u64| (f.over)((f.minus)(x, low), (f.minus)(high, low)),
        ),
{
    assert forall|i: int| 0 <= i < values.len() implies #[trigger] scaled[i] == (f.over)(
        (f.minus)(values[i], low),
        (f.minus)(high, low),
    ) by {
        scaled_by(a, f, values[i], low, high, scaled[i]);
    }
    assert(scaled =~= values.map_values(
        |x: u64| (f.over)((f.minus)(x, low), (f.minus)(high, low)),
    ));
}

/// What it is for a signal to be scaled.
pub proof fn signal_scaled_by<A: Arithmetic>(
    a: A,
    f: Operations,
    signal: Signal,
    low: u64,
    high: u64,
    scaled: Signal,
)
    requires
        computes(a, f),
        signal.scales_to(a, low, high, scaled),
    ensures
        is_rescaled(f, signal, low, high, scaled),
{
    values_scaled_by(a, f, signal.values@, low, high, scaled.values@);
    lowest_and_highest_are_extreme(scaled.values@);
}

/// Values are scaled one by one: each to its distance from `low` over the distance of
/// `high` from `low`.
pub proof fn values_are_scaled_one_by_one<A: Arithmetic>(
    a: A,
    f: Operations,
    values: Vec<u64>,
    low: u64,
    high: u64,
    scaled: Vec<u64>,
)
    requires
        computes(a, f),
        call_ensures(scale_all::<A>, (&a, &values, low, high), scaled),
    ensures
        scaled@.len() == values@.len(),
        forall|i: int|
            0 <= i < values@.len() ==> #[trigger] scaled@[i] == (f.over)(
                (f.minus)(values@[i], low),
                (f.minus)(high, low),
            ),
{
    values_scaled_by(a, f, values@, low, high, scaled@);
}

/// A signal that normalizes itself has each value as its distance from the least value
/// that was kept over the distance between the extremes that were kept, keeps the
/// extremes of the new values, and nothing else of it changes.
pub proof fn own_extremes_normalize<A: Arithmetic>(a: A, f: Operations)
    requires
        computes(a, f),
    ensures
        forall|signal: &mut Signal| #[trigger]
            call_ensures(Signal::_normalize::<A>, (signal, &a), ()) ==> is_rescaled(
                f,
                *signal,
                signal.min,
                signal.max,
                *final(signal),
            ),
{
    assert forall|signal: &mut Signal| #[trigger]
        call_ensures(Signal::_normalize::<A>, (signal, &a), ()) implies is_rescaled(
        f,
        *signal,
        signal.min,
        signal.max,
        *final(signal),
    ) by {
        signal_scaled_by(a, f, *signal, signal.min, signal.max, *final(signal));
    }
}

/// Whether `low` holds the least kept with the signals of the type numbered `kind`: it
/// holds one exactly where there are such signals, none of these keeps a number below,
/// and one of them keeps it, unless it is the largest finite number.
pub open spec fn holds_least(low: Map<u32, u64>, signals: Seq<Signal>, kind: u32) -> bool {
    &&& low.contains_key(kind) <==> exists|i: int|
        0 <= i < signals.len() && (#[trigger] signals[i]).signal_type.key() == kind
    &&& low.contains_key(kind) ==> {
        &&& is_numeric(low[kind])
        &&& exact(low[kind]) <= exact(0x7FEF_FFFF_FFFF_FFFF)
        &&& low[kind] == 0x7FEF_FFFF_FFFF_FFFF || exists|i: int|
            0 <= i < signals.len() && (#[trigger] signals[i]).signal_type.key() == kind
                && signals[i].min == low[kind]
    }
    &&& forall|i: int|
        0 <= i < signals.len() && (#[trigger] signals[i]).signal_type.key() == kind && is_numeric(
            signals[i].min,
        ) ==> exact(low[kind]) <= exact(signals[i].min)
}

/// Whether `high` holds the greatest kept with the signals of the type numbered `kind`:
/// it holds one exactly where there are such signals, none of these keeps a number
/// above, and one of them keeps it, unless it is the smallest finite number.
pub open spec fn holds_greatest(high: Map<u32, u64>, signals: Seq<Signal>, kind: u32) -> bool {
    &&& high.contains_key(kind) <==> exists|i: int|
        0 <= i < signals.len() && (#[trigger] signals[i]).signal_type.key() == kind
    &&& high.contains_key(kind) ==> {
        &&& is_numeric(high[kind])
        &&& exact(high[kind]) >= exact(0xFFEF_FFFF_FFFF_FFFF)
        &&& high[kind] == 0xFFEF_FFFF_FFFF_FFFF || exists|i: int|
            0 <= i < signals.len() && (#[trigger] signals[i]).signal_type.key() == kind
                && signals[i].max == high[kind]
    }
    &&& forall|i: int|
        0 <= i < signals.len() && (#[trigger] signals[i]).signal_type.key() == kind && is_numeric(
            signals[i].max,
        ) ==> exact(high[kind]) >= exact(signals[i].max)
}

/// The extremes of signals hold the least and the greatest of every type.
pub proof fn extremes_hold_least_and_greatest(signals: Seq<Signal>, kind: u32)
    ensures
        holds_least(extremes(signals).low, signals, kind),
        holds_greatest(extremes(signals).high, signals, kind),
{
    let low = lowest(lows(signals, kind));
    let high = highest(highs(signals, kind));
    lowest_and_highest_are_extreme(lows(signals, kind));
    lowest_and_highest_are_extreme(highs(signals, kind));
    if low != 0x7FEF_FFFF_FFFF_FFFF {
        let m = choose|m: int| 0 <= m < lows(signals, kind).len() && lows(signals, kind)[m] == low;
        let i = source_in_lows(signals, kind, m);
        assert(signals[i].signal_type.key() == kind);
    }
    if high != 0xFFEF_FFFF_FFFF_FFFF {
        let m = choose|m: int|
            0 <= m < highs(signals, kind).len() && highs(signals, kind)[m] == high;
        let i = source_in_highs(signals, kind, m);
        assert(signals[i].signal_type.key() == kind);
    }
    assert forall|i: int|
        0 <= i < signals.len() && (#[trigger] signals[i]).signal_type.key() == kind && is_numeric(
            signals[i].min,
        ) implies exact(low) <= exact(signals[i].min) by {
        kept_in_lows(signals, i);
        let m = choose|m: int|
            0 <= m < lows(signals, kind).len() && lows(signals, kind)[m] == signals[i].min;
        assert(is_numeric(lows(signals, kind)[m]));
    }
    assert forall|i: int|
        0 <= i < signals.len() && (#[trigger] signals[i]).signal_type.key() == kind && is_numeric(
            signals[i].max,
        ) implies exact(high) >= exact(signals[i].max) by {
        kept_in_highs(signals, i);
        let m = choose|m: int|
            0 <= m < highs(signals, kind).len() && highs(signals, kind)[m] == signals[i].max;
        assert(is_numeric(highs(signals, kind)[m]));
    }
}

/// The parameters gathered of signals hold the least and the greatest of every type
/// that occurs, and of no other.
pub proof fn parameters_hold_least_and_greatest(
    signals: Vec<Signal>,
    params: NormalizationParams,
    kind: u32,
)
    requires
        call_ensures(NormalizationParams::of, (&signals,), params),
    ensures
        holds_least(params.min@, signals@, kind),
        holds_greatest(params.max@, signals@, kind),
{
    extremes_hold_least_and_greatest(signals@, kind);
}

/// The parameters gathered of discharges hold the least and the greatest of every type
/// over the signals of all of them, and of no other.
pub proof fn parameters_of_discharges_hold_least_and_greatest(
    discharges: Vec<Discharge>,
    params: NormalizationParams,
    kind: u32,
)
    requires
        call_ensures(NormalizationParams::of_discharges, (&discharges,), params),
    ensures
        holds_least(
            params.min@,
            discharges@.map_values(|d: Discharge| d.signals@).flatten(),
            kind,
        ),
        holds_greatest(
            params.max@,
            discharges@.map_values(|d: Discharge| d.signals@).flatten(),
            kind,
        ),
{
    let views = discharge_views(discharges@);
    all_signals_follow_each_other(views);
    assert(views.map_values(|d: DischargeView| d.signals) =~= discharges@.map_values(
        |d: Discharge| d.signals@,
    ));
    extremes_hold_least_and_greatest(all_signals(views), kind);
}

/// All signals are those of the first discharge, then those of the second, and so on.
pub proof fn all_signals_follow_each_other(discharges: Seq<DischargeView>)
    ensures
        all_signals(discharges) == discharges.map_values(|d: DischargeView| d.signals).flatten(),
    decreases discharges.len(),
{
    let lists = discharges.map_values(|d: DischargeView| d.signals);
    if discharges.len() > 0 {
        let rest = discharges.drop_last();
        all_signals_follow_each_other(rest);
        let before = rest.map_values(|d: DischargeView| d.signals);
        assert(lists =~= before.push(discharges.last().signals));
        before.lemma_flatten_push(discharges.last().signals);
    } else {
        assert(all_signals(discharges) =~= lists.flatten());
    }
}

/// One more signal is taken into account for its own type alone: of this type the
/// lesser of the least values and the greater of the greatest values are held, and what
/// is held for other types stays.
pub proof fn one_more_signal_widens(signal: Signal, low: u64, high: u64)
    ensures
        forall|params: &mut NormalizationParams| #[trigger]
            call_ensures(NormalizationParams::widen, (params, &signal), ()) ==> {
                &&& final(params).min@.remove(signal.signal_type.key()) == params.min@.remove(
                    signal.signal_type.key(),
                )
                &&& final(params).max@.remove(signal.signal_type.key()) == params.max@.remove(
                    signal.signal_type.key(),
                )
                &&& final(params).min@.contains_key(signal.signal_type.key())
                &&& final(params).max@.contains_key(signal.signal_type.key())
            },
        forall|params: &mut NormalizationParams|
            {
                &&& #[trigger] call_ensures(NormalizationParams::widen, (params, &signal), ())
                &&& params.min@.contains_pair(signal.signal_type.key(), low) || (
                !params.min@.contains_key(signal.signal_type.key()) && low
                    == 0x7FEF_FFFF_FFFF_FFFF)
                &&& params.max@.contains_pair(signal.signal_type.key(), high) || (
                !params.max@.contains_key(signal.signal_type.key()) && high
                    == 0xFFEF_FFFF_FFFF_FFFF)
            } ==> {
                let least = final(params).min@[signal.signal_type.key()];
                let greatest = final(params).max@[signal.signal_type.key()];
                &&& least == low || least == signal.min
                &&& greatest == high || greatest == signal.max
                &&& is_numeric(low) ==> is_numeric(least) && exact(least) <= exact(low)
                &&& is_numeric(high) ==> is_numeric(greatest) && exact(high) <= exact(greatest)
                &&& is_numeric(signal.min) ==> is_numeric(least) && exact(least) <= exact(
                    signal.min,
                )
                &&& is_numeric(signal.max) ==> is_numeric(greatest) && exact(signal.max) <= exact(
                    greatest,
                )
            },
{
    assert forall|params: &mut NormalizationParams| #[trigger]
        call_ensures(NormalizationParams::widen, (params, &signal), ()) implies {
        &&& final(params).min@.remove(signal.signal_type.key()) == params.min@.remove(
            signal.signal_type.key(),
        )
        &&& final(params).max@.remove(signal.signal_type.key()) == params.max@.remove(
            signal.signal_type.key(),
        )
        &&& final(params).min@.contains_key(signal.signal_type.key())
        &&& final(params).max@.contains_key(signal.signal_type.key())
    } by {
        let kind = signal.signal_type.key();
        assert(final(params)@.low == with_low(params@.low, signal));
        assert(final(params)@.high == with_high(params@.high, signal));
        assert(final(params).min@.remove(kind) =~= params.min@.remove(kind));
        assert(final(params).max@.remove(kind) =~= params.max@.remove(kind));
    }
    assert forall|params: &mut NormalizationParams|
        {
            &&& #[trigger] call_ensures(NormalizationParams::widen, (params, &signal), ())
            &&& params.min@.contains_pair(signal.signal_type.key(), low) || (
            !params.min@.contains_key(signal.signal_type.key()) && low == 0x7FEF_FFFF_FFFF_FFFF)
            &&& params.max@.contains_pair(signal.signal_type.key(), high) || (
            !params.max@.contains_key(signal.signal_type.key()) && high == 0xFFEF_FFFF_FFFF_FFFF)
        } implies {
        let least = final(params).min@[signal.signal_type.key()];
        let greatest = final(params).max@[signal.signal_type.key()];
        &&& least == low || least == signal.min
        &&& greatest == high || greatest == signal.max
        &&& is_numeric(low) ==> is_numeric(least) && exact(least) <= exact(low)
        &&& is_numeric(high) ==> is_numeric(greatest) && exact(high) <= exact(greatest)
        &&& is_numeric(signal.min) ==> is_numeric(least) && exact(least) <= exact(signal.min)
        &&& is_numeric(signal.max) ==> is_numeric(greatest) && exact(signal.max) <= exact(
            greatest,
        )
    } by {
        assert(final(params)@.low == with_low(params@.low, signal));
        assert(final(params)@.high == with_high(params@.high, signal));
        smaller_and_larger_are_extreme(low, signal.min);
        smaller_and_larger_are_extreme(high, signal.max);
    }
}

/// Each signal is normalized by the extremes that the parameters hold for its type.
pub proof fn parameters_normalize<A: Arithmetic>(
    a: A,
    f: Operations,
    signals: Vec<Signal>,
    params: NormalizationParams,
    normalized: Vec<Signal>,
    i: int,
)
    requires
        computes(a, f),
        call_ensures(Signal::normalize_all::<A>, (&a, &signals, &params), normalized),
        0 <= i < signals@.len(),
    ensures
        normalized@.len() == signals@.len(),
        is_rescaled(
            f,
            signals@[i],
            params.min@[signals@[i].signal_type.key()],
            params.max@[signals@[i].signal_type.key()],
            normalized@[i],
        ),
{
    assert(signals@[i].normalizes_to(a, params@, normalized@[i]));
    let kind = signals@[i].signal_type.key();
    signal_scaled_by(a, f, signals@[i], params@.low[kind], params@.high[kind], normalized@[i]);
}

/// Normalizing signals changes each value to its distance from the least over the
/// distance between the greatest and the least of the signal's type. These are the
/// extremes that are given, or where none are given those of all signals of the type,
/// and they are given back.
pub proof fn normalizing_divides_distances<A: Arithmetic>(
    a: A,
    f: Operations,
    signals: Vec<Signal>,
    params: Option<&NormalizationParams>,
    r: (Vec<Signal>, NormalizationParams),
    i: int,
    kind: u32,
)
    requires
        computes(a, f),
        call_ensures(Signal::normalize_vec::<A>, (&a, signals, params), r),
        0 <= i < signals@.len(),
    ensures
        r.0@.len() == signals@.len(),
        is_rescaled(
            f,
            signals@[i],
            r.1.min@[signals@[i].signal_type.key()],
            r.1.max@[signals@[i].signal_type.key()],
            r.0@[i],
        ),
        forall|j: int|
            0 <= j < signals@[i].values@.len() ==> #[trigger] r.0@[i].values@[j] == (f.over)(
                (f.minus)(signals@[i].values@[j], r.1.min@[signals@[i].signal_type.key()]),
                (f.minus)(
                    r.1.max@[signals@[i].signal_type.key()],
                    r.1.min@[signals@[i].signal_type.key()],
                ),
            ),
        params matches Some(p) ==> r.1.min@ == p.min@ && r.1.max@ == p.max@,
        params is None ==> holds_least(r.1.min@, signals@, kind) && holds_greatest(
            r.1.max@,
            signals@,
            kind,
        ),
{
    assert(is_normalization(a, signals@, viewed(params), r.0@, r.1@));
    let own = signals@[i].signal_type.key();
    assert(signals@[i].normalizes_to(a, r.1@, r.0@[i]));
    signal_scaled_by(a, f, signals@[i], r.1@.low[own], r.1@.high[own], r.0@[i]);
    extremes_hold_least_and_greatest(signals@, kind);
}

/// No number of signals that keep their extremes lies outside the extremes held for
/// their type: they hold the least and the greatest of the values themselves.
pub proof fn held_extremes_bound_values(
    signals: Seq<Signal>,
    low: Map<u32, u64>,
    high: Map<u32, u64>,
    i: int,
    j: int,
)
    requires
        forall|k: u32| #[trigger] holds_least(low, signals, k),
        forall|k: u32| #[trigger] holds_greatest(high, signals, k),
        0 <= i < signals.len(),
        0 <= j < signals[i].values@.len(),
        is_least(signals[i].values@, signals[i].min),
        is_greatest(signals[i].values@, signals[i].max),
        is_numeric(signals[i].values@[j]),
    ensures
        exact(low[signals[i].signal_type.key()]) <= exact(signals[i].values@[j]),
        exact(signals[i].values@[j]) <= exact(high[signals[i].signal_type.key()]),
{
    let kind = signals[i].signal_type.key();
    assert(holds_least(low, signals, kind));
    assert(holds_greatest(high, signals, kind));
}

/// What it is for features to be those of values.
pub proof fn features_by<A: Arithmetic>(
    a: A,
    f: Operations,
    values: Seq<u64>,
    window_size: nat,
    means: Seq<u64>,
    deviations: Seq<u64>,
    k: int,
)
    requires
        computes(a, f),
        0 < window_size <= usize::MAX,
        are_features(a, values, window_size, means, deviations),
        0 <= k < values.len() / window_size,
    ensures
        means.len() == values.len() / window_size,
        deviations.len() == values.len() / window_size,
        ({
            let part = values.subrange(k * window_size, (k + 1) * window_size);
            let bins = Seq::new(
                window_size / 2,
                |i: int| (f.frequency)(part, (i + 1) as usize),
            );
            let count = (f.number)(bins.len() as usize);
            let center = (f.over)((f.sum)(bins), count);
            let squares = Seq::new(
                bins.len(),
                |i: int| (f.times)((f.minus)(bins[i], center), (f.minus)(bins[i], center)),
            );
            &&& means[k] == (f.over)((f.sum)(part), (f.number)(window_size as usize))
            &&& deviations[k] == (f.root)((f.over)((f.sum)(squares), count))
        }),
{
    let part = values.subrange(k * window_size, (k + 1) * window_size);
    window_fits(values.len(), window_size, k);
    assert((k + 1) * window_size - k * window_size == window_size) by (nonlinear_arith);
    assert(part.len() == window_size);
    assert(is_mean(a, part, means[k]));
    assert(is_fft_deviation(a, part, deviations[k]));
    mean_by(a, f, part, means[k]);
    fft_deviation_by(a, f, part, deviations[k]);
}

/// A signal has a mean and a frequency deviation for each full window, in their order.
/// The mean is the sum of the window's values over their number. The deviation is the
/// standard deviation of the magnitudes of the window's transform without its constant
/// part and its mirrored half.
pub proof fn features_describe_windows<A: Arithmetic>(
    a: A,
    f: Operations,
    signal: Signal,
    window_size: usize,
    r: (SignalFeatures, SignalFeatures),
    k: int,
)
    requires
        computes(a, f),
        window_size > 0,
        call_ensures(Signal::get_features::<A>, (&signal, &a, window_size), r),
        0 <= k < signal.values@.len() / window_size as nat,
    ensures
        r.0.type_ == FeatureType::Mean,
        r.1.type_ == FeatureType::FftStd,
        r.0.values@.len() == signal.values@.len() / window_size as nat,
        r.1.values@.len() == signal.values@.len() / window_size as nat,
        ({
            let part = signal.values@.subrange(k * window_size, (k + 1) * window_size);
            let bins = Seq::new(
                window_size as nat / 2,
                |i: int| (f.frequency)(part, (i + 1) as usize),
            );
            let count = (f.number)(bins.len() as usize);
            let center = (f.over)((f.sum)(bins), count);
            let squares = Seq::new(
                bins.len(),
                |i: int| (f.times)((f.minus)(bins[i], center), (f.minus)(bins[i], center)),
            );
            &&& r.0.values@[k] == (f.over)((f.sum)(part), (f.number)(window_size))
            &&& r.1.values@[k] == (f.root)((f.over)((f.sum)(squares), count))
        }),
{
    features_by(a, f, signal.values@, window_size as nat, r.0.values@, r.1.values@, k);
}

/// A signal that does not fill a window has no features, and their kinds are told.
pub proof fn short_signals_have_no_features<A: Arithmetic>(
    a: A,
    signal: Signal,
    window_size: usize,
    r: (SignalFeatures, SignalFeatures),
)
    requires
        call_ensures(Signal::get_features::<A>, (&signal, &a, window_size), r),
        signal.values@.len() < window_size,
    ensures
        r.0.type_ == FeatureType::Mean && r.1.type_ == FeatureType::FftStd,
        r.0.values@.len() == 0 && r.1.values@.len() == 0,
{
    assert(signal.values@.len() / window_size as nat == 0) by (nonlinear_arith)
        requires
            signal.values@.len() < window_size,
    ;
}

/// Texts are listed one after the other with a comma and a space between any two.
pub proof fn lists_follow_each_other(s: Seq<Seq<char>>, t: Seq<Seq<char>>)
    requires
        s.len() > 0,
        t.len() > 0,
    ensures
        listed(s + t) == listed(s) + seq![',', ' '] + listed(t),
    decreases t.len(),
{
    reveal_strlit(", ");
    assert(", "@ =~= seq![',', ' ']);
    assert((s + t).drop_last() =~= s + t.drop_last());
    assert((s + t).last() == t.last());
    if t.len() == 1 {
        assert(s + t.drop_last() =~= s);
        assert(listed(s + t) =~= listed(s) + seq![',', ' '] + listed(t));
    } else {
        lists_follow_each_other(s, t.drop_last());
        assert(listed(s + t) =~= listed(s) + seq![',', ' '] + listed(t));
    }
}

/// A text alone is listed as it is, and without texts nothing is listed.
pub proof fn lone_texts_are_listed(text: Seq<char>)
    ensures
        listed(seq![text]) == text,
        listed(Seq::empty()) == Seq::<char>::empty(),
{
}

/// A signal describes itself by its label, the extremes that it keeps and the number of
/// its values.
pub proof fn signals_describe_themselves<A: Arithmetic>(
    a: A,
    display: spec_fn(u64) -> Seq<char>,
    signal: Signal,
    r: String,
)
    requires
        forall|x: u64, s: String| #[trigger]
            call_ensures(A::display, (&a, x), s) ==> s@ == display(x),
        call_ensures(Signal::fmt::<A>, (&signal, &a), r),
    ensures
        r@ == "Signal { label: "@ + signal.label@ + ", min: "@ + display(signal.min) + ", max: "@
            + display(signal.max) + " }. Values length: "@ + decimal(signal.values@.len()),
{
    let (low, high) = choose|low: Seq<char>, high: Seq<char>| #[trigger]
        is_display(a, signal.min, low) && #[trigger] is_display(a, signal.max, high) && r@
            == "Signal { label: "@ + signal.label@ + ", min: "@ + low + ", max: "@ + high
            + " }. Values length: "@ + decimal(signal.values@.len());
    let s = choose|s: String|
        s@ == low && #[trigger] call_ensures(A::display, (&a, signal.min), s);
    let t = choose|t: String|
        t@ == high && #[trigger] call_ensures(A::display, (&a, signal.max), t);
    assert(low == display(signal.min) && high == display(signal.max));
}

/// Features describe themselves by their kind and all their values in their order.
pub proof fn features_describe_themselves<A: Arithmetic>(
    a: A,
    debug: spec_fn(u64) -> Seq<char>,
    features: SignalFeatures,
    r: String,
)
    requires
        forall|x: u64, s: String| #[trigger]
            call_ensures(A::debug, (&a, x), s) ==> s@ == debug(x),
        call_ensures(SignalFeatures::fmt::<A>, (&features, &a), r),
    ensures
        r@ == "SignalFeatures { type: "@ + (match features.type_ {
            FeatureType::Mean => "Mean"@,
            FeatureType::FftStd => "FftStd"@,
        }) + ", values: ["@ + listed(features.values@.map_values(debug)) + "] }"@,
{
    let texts = choose|texts: Seq<Seq<char>>| #[trigger]
        are_debug(a, features.values@, texts) && r@ == "SignalFeatures { type: "@
            + features.type_.name() + ", values: ["@ + listed(texts) + "] }"@;
    assert forall|i: int| 0 <= i < texts.len() implies #[trigger] texts[i] == debug(
        features.values@[i],
    ) by {
        assert(is_debug(a, features.values@[i], texts[i]));
        let s = choose|s: String|
            s@ == texts[i] && #[trigger] call_ensures(A::debug, (&a, features.values@[i]), s);
        assert(call_ensures(A::debug, (&a, features.values@[i]), s));
    }
    assert(texts =~= features.values@.map_values(debug));
}

/// A discharge holds the class and the signals that it is given.
pub proof fn new_discharges_hold_their_signals(
    class: DisruptionClass,
    signals: Vec<Signal>,
    discharge: Discharge,
)
    requires
        call_ensures(Discharge::new, (class, signals), discharge),
    ensures
        discharge.class == class,
        discharge.signals@ == signals@,
{
}

/// Without signals nothing is held.
pub proof fn nothing_is_held_by_default(params: NormalizationParams, kind: u32)
    requires
        call_ensures(NormalizationParams::default, (), params),
    ensures
        !params.min@.contains_key(kind),
        !params.max@.contains_key(kind),
{
    assert(params@.low == Map::<u32, u64>::empty());
    assert(params@.high == Map::<u32, u64>::empty());
}

} // verus!

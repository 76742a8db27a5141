//! From signals to records and verdicts, with double-precision arithmetic.
use rustfft::num_complex::Complex;
use rustfft::FftPlanner;

use svm::api;
use svm::arithmetic::{deviation, fft_deviation, mean, positive_frequencies, scale, Arithmetic};
use svm::dataset::{get_dataset, get_records, window_records, TypeFeatures, FEATURES};
use svm::prediction::{
    confidence, count_anomalies, prediction_response, process_prediction_request, verdict,
    PredictionStep,
};
use svm::signals::{
    Discharge, DisruptionClass, FeatureType, NormalizationParams, Signal, SignalFeatures,
    SignalType, WINDOW_SIZE,
};
use svm::training::training_dataset;

struct Ieee;

fn numbers(bits: &[u64]) -> Vec<f64> {
    bits.iter().map(|b| f64::from_bits(*b)).collect()
}

fn bits(numbers: &[f64]) -> Vec<u64> {
    numbers.iter().map(|x| x.to_bits()).collect()
}

impl Arithmetic for Ieee {
    type Spectrum = Vec<Complex<f64>>;

    fn number(&self, n: usize) -> u64 {
        (n as f64).to_bits()
    }

    fn minus(&self, x: u64, y: u64) -> u64 {
        (f64::from_bits(x) - f64::from_bits(y)).to_bits()
    }

    fn times(&self, x: u64, y: u64) -> u64 {
        (f64::from_bits(x) * f64::from_bits(y)).to_bits()
    }

    fn over(&self, x: u64, y: u64) -> u64 {
        (f64::from_bits(x) / f64::from_bits(y)).to_bits()
    }

    fn root(&self, x: u64) -> u64 {
        f64::from_bits(x).sqrt().to_bits()
    }

    fn sum(&self, values: &[u64]) -> u64 {
        numbers(values).iter().sum::<f64>().to_bits()
    }

    fn transform(&self, window: &[u64]) -> Vec<Complex<f64>> {
        let fft = FftPlanner::new().plan_fft_forward(window.len());
        let mut spectrum: Vec<Complex<f64>> =
            numbers(window).iter().map(|&x| Complex::new(x, 0.0)).collect();
        fft.process(&mut spectrum);
        spectrum
    }

    fn magnitude(&self, spectrum: &Vec<Complex<f64>>, bin: usize) -> u64 {
        spectrum[bin].norm().to_bits()
    }

    fn display(&self, x: u64) -> String {
        format!("{}", f64::from_bits(x))
    }

    fn debug(&self, x: u64) -> String {
        format!("{:?}", f64::from_bits(x))
    }
}

fn signal(signal_type: SignalType, values: &[f64]) -> Signal {
    Signal::new("label".to_string(), bits(values), DisruptionClass::Normal, signal_type)
}

/// Some values without a pattern, the same for the same arguments.
fn wave(n: usize, a: f64, b: f64) -> Vec<f64> {
    (0..n).map(|i| (a * i as f64).sin() * b + (i % 5) as f64).collect()
}

/// The features of the windows of `values`, computed on numbers.
fn expected_features(values: &[f64], window_size: usize) -> (Vec<f64>, Vec<f64>) {
    let mut means = Vec::new();
    let mut deviations = Vec::new();
    for window in values.chunks_exact(window_size) {
        means.push(window.iter().sum::<f64>() / window_size as f64);
        let mut spectrum: Vec<Complex<f64>> =
            window.iter().map(|&x| Complex::new(x, 0.0)).collect();
        FftPlanner::new().plan_fft_forward(window_size).process(&mut spectrum);
        let magnitudes: Vec<f64> =
            spectrum[1..=window_size / 2].iter().map(|c| c.norm()).collect();
        let center = magnitudes.iter().sum::<f64>() / magnitudes.len() as f64;
        let variance = magnitudes.iter().map(|&m| (m - center) * (m - center)).sum::<f64>()
            / magnitudes.len() as f64;
        deviations.push(variance.sqrt());
    }
    (means, deviations)
}

fn scaled(values: &[f64], low: f64, high: f64) -> Vec<f64> {
    values.iter().map(|v| (v - low) / (high - low)).collect()
}

#[test]
fn statistics_of_values() {
    assert_eq!(f64::from_bits(scale(&Ieee, 3.0f64.to_bits(), 1.0f64.to_bits(), 5.0f64.to_bits())), 0.5);
    assert_eq!(f64::from_bits(mean(&Ieee, &bits(&[1.0, 2.0, 6.0]))), 3.0);
    assert_eq!(
        f64::from_bits(deviation(&Ieee, &bits(&[2.0, 4.0, 4.0, 4.0, 5.0, 5.0, 7.0, 9.0]))),
        2.0
    );
    assert!(f64::from_bits(mean(&Ieee, &[])).is_nan());
}

#[test]
fn positive_frequencies_leave_out_the_constant_part() {
    let constant = bits(&[3.0; 16]);
    assert_eq!(numbers(&positive_frequencies(&Ieee, &constant)), vec![0.0; 8]);
    assert_eq!(f64::from_bits(fft_deviation(&Ieee, &constant)), 0.0);
    let impulse = bits(&[1.0, 0.0, 0.0, 0.0]);
    assert_eq!(numbers(&positive_frequencies(&Ieee, &impulse)), vec![1.0, 1.0]);
    assert!(positive_frequencies(&Ieee, &bits(&[1.0])).is_empty());
}

#[test]
fn counts_of_types_and_features() {
    assert_eq!(SignalType::count(), 7);
    assert_eq!(FeatureType::count(), 2);
    assert_eq!(FEATURES, 14);
    assert_eq!(WINDOW_SIZE, 16);
}

#[test]
fn features_of_full_windows() {
    let values = wave(53, 0.37, 4.0);
    let s = signal(SignalType::Densidad, &values);
    let (means, deviations) = s.get_features(&Ieee, 16);
    let (expected_means, expected_deviations) = expected_features(&values, 16);
    assert_eq!(means.type_, FeatureType::Mean);
    assert_eq!(deviations.type_, FeatureType::FftStd);
    assert_eq!(means.values.len(), 3);
    assert_eq!(means.values, bits(&expected_means));
    assert_eq!(deviations.values, bits(&expected_deviations));
    let (none, nothing) = signal(SignalType::Densidad, &values[..15]).get_features(&Ieee, 16);
    assert!(none.values.is_empty() && nothing.values.is_empty());
}

#[test]
fn a_signal_normalizes_itself() {
    let mut s = signal(SignalType::ModeLock, &[2.0, 4.0, 3.0]);
    s._normalize(&Ieee);
    assert_eq!(numbers(&s.values), vec![0.0, 1.0, 0.5]);
    assert_eq!(f64::from_bits(s._min()), 0.0);
    assert_eq!(f64::from_bits(s._max()), 1.0);
    assert_eq!(s.label, "label");
    assert_eq!(s.signal_type, SignalType::ModeLock);
}

#[test]
fn signals_are_normalized_by_type() {
    let signals = vec![
        signal(SignalType::ModeLock, &[0.0, 2.0]),
        signal(SignalType::Densidad, &[10.0, 30.0]),
        signal(SignalType::ModeLock, &[4.0, -4.0]),
    ];
    let (normalized, params) = Signal::normalize_vec(&Ieee, signals, None);
    let ml = SignalType::ModeLock.code();
    let de = SignalType::Densidad.code();
    assert_eq!(params.min.len(), 2);
    assert_eq!(params.max.len(), 2);
    assert_eq!(f64::from_bits(params.min[&ml]), -4.0);
    assert_eq!(f64::from_bits(params.max[&ml]), 4.0);
    assert_eq!(f64::from_bits(params.min[&de]), 10.0);
    assert_eq!(f64::from_bits(params.max[&de]), 30.0);
    assert_eq!(numbers(&normalized[0].values), vec![0.5, 0.75]);
    assert_eq!(numbers(&normalized[1].values), vec![0.0, 1.0]);
    assert_eq!(numbers(&normalized[2].values), vec![1.0, 0.0]);
    assert_eq!(f64::from_bits(normalized[0]._min()), 0.5);
    assert_eq!(f64::from_bits(normalized[0]._max()), 0.75);

    let others = vec![signal(SignalType::ModeLock, &[12.0])];
    let (normalized, used) = Signal::normalize_vec(&Ieee, others, Some(&params));
    assert_eq!(numbers(&normalized[0].values), vec![2.0]);
    assert_eq!(used.min, params.min);
    assert_eq!(used.max, params.max);
}

#[test]
fn extremes_bound_all_signals_of_a_type() {
    let signals: Vec<Signal> = (0..5)
        .map(|i| signal(SignalType::Inductancia, &wave(20, 0.3 * i as f64, i as f64 - 2.0)))
        .collect();
    let params = NormalizationParams::of(&signals);
    let kind = SignalType::Inductancia.code();
    let all: Vec<f64> = signals.iter().flat_map(|s| numbers(&s.values)).collect();
    let low = all.iter().copied().fold(f64::INFINITY, f64::min);
    let high = all.iter().copied().fold(f64::NEG_INFINITY, f64::max);
    assert_eq!(f64::from_bits(params.min[&kind]), low);
    assert_eq!(f64::from_bits(params.max[&kind]), high);
    let defaults = NormalizationParams::default();
    assert!(defaults.min.is_empty() && defaults.max.is_empty());
}

#[test]
fn signals_and_features_describe_themselves() {
    let s = signal(SignalType::ModeLock, &[2.5, -4.0, 3.25]);
    assert_eq!(s.fmt(&Ieee), "Signal { label: label, min: -4, max: 3.25 }. Values length: 3");
    let features = |values: &[f64]| SignalFeatures { type_: FeatureType::FftStd, values: bits(values) };
    for values in [&[][..], &[1.0], &[1.0, 2.5, -3.0]] {
        assert_eq!(
            features(values).fmt(&Ieee),
            format!("SignalFeatures {{ type: FftStd, values: {:?} }}", values)
        );
    }
}

fn type_features(signal_type: SignalType, means: &[f64], deviations: &[f64]) -> TypeFeatures {
    TypeFeatures { signal_type, means: bits(means), deviations: bits(deviations) }
}

#[test]
fn records_hold_means_and_then_deviations() {
    let rows = window_records(&vec![
        type_features(SignalType::PotenciaDeEntrada, &[7.0, 8.0], &[70.0, 80.0]),
        type_features(SignalType::CorrientePlasma, &[1.0], &[10.0]),
        type_features(SignalType::PotenciaDeEntrada, &[5.0, 6.0, 9.0], &[50.0, 60.0, 90.0]),
    ]);
    let first = [1.0, 0.0, 0.0, 0.0, 0.0, 0.0, 5.0, 10.0, 0.0, 0.0, 0.0, 0.0, 0.0, 50.0];
    let second = [0.0, 0.0, 0.0, 0.0, 0.0, 0.0, 6.0, 0.0, 0.0, 0.0, 0.0, 0.0, 0.0, 60.0];
    assert_eq!(rows, vec![bits(&first), bits(&second)]);
}

#[test]
fn the_first_signal_with_windows_sets_their_number() {
    let rows = window_records(&vec![
        type_features(SignalType::ModeLock, &[], &[]),
        type_features(SignalType::Densidad, &[1.0], &[2.0]),
        type_features(SignalType::Inductancia, &[3.0, 4.0], &[5.0, 6.0]),
    ]);
    assert_eq!(rows.len(), 1);
    assert_eq!(f64::from_bits(rows[0][2]), 3.0);
    assert_eq!(f64::from_bits(rows[0][3]), 1.0);
    assert_eq!(f64::from_bits(rows[0][9]), 5.0);
    assert_eq!(f64::from_bits(rows[0][10]), 2.0);
    assert!(window_records(&vec![]).is_empty());
}

#[test]
fn a_dataset_joins_the_records_of_its_discharges() {
    let a = wave(40, 0.2, 3.0);
    let b = wave(33, 0.9, -2.0);
    let c = wave(16, 1.7, 1.0);
    let discharges = || {
        vec![
            Discharge::new(
                DisruptionClass::Anomaly,
                vec![signal(SignalType::CorrientePlasma, &a), signal(SignalType::ModeLock, &b)],
            ),
            Discharge::new(DisruptionClass::Normal, vec![]),
            Discharge::new(DisruptionClass::Unknown, vec![signal(SignalType::ModeLock, &c)]),
        ]
    };
    let params = NormalizationParams::of_discharges(&discharges());
    let (low, high) = {
        let kind = SignalType::ModeLock.code();
        (f64::from_bits(params.min[&kind]), f64::from_bits(params.max[&kind]))
    };
    let both: Vec<f64> = b.iter().chain(c.iter()).copied().collect();
    assert_eq!(low, both.iter().copied().fold(f64::INFINITY, f64::min));
    assert_eq!(high, both.iter().copied().fold(f64::NEG_INFINITY, f64::max));

    let dataset = get_dataset(&Ieee, discharges(), &params);
    let records = dataset.records();
    assert_eq!(dataset.targets(), vec![true, true, false]);
    assert_eq!(records.len(), 3);
    let (means, deviations) = expected_features(&scaled(&b, low, high), 16);
    for w in 0..2 {
        assert_eq!(records[w].len(), 14);
        assert_eq!(f64::from_bits(records[w][1]), means[w]);
        assert_eq!(f64::from_bits(records[w][8]), deviations[w]);
        assert_eq!(f64::from_bits(records[w][2]), 0.0);
    }
    let (means, deviations) = expected_features(&scaled(&c, low, high), 16);
    assert_eq!(f64::from_bits(records[2][0]), 0.0);
    assert_eq!(f64::from_bits(records[2][1]), means[0]);
    assert_eq!(f64::from_bits(records[2][8]), deviations[0]);

    let plain = get_records(&Ieee, &discharges(), &params);
    assert_eq!(plain.rows, records);
    assert_eq!(plain.targets, dataset.targets());
}

#[test]
fn an_empty_dataset_has_no_records() {
    let dataset = get_dataset(&Ieee, vec![], &NormalizationParams::default());
    assert!(dataset.records().is_empty());
    assert!(dataset.targets().is_empty());
    assert_eq!(dataset.features(), 14);
}

/// The records and targets of discharges, by the given extremes.
fn table(discharges: Vec<Discharge>, params: &NormalizationParams) -> (Vec<Vec<u64>>, Vec<bool>) {
    let dataset = get_dataset(&Ieee, discharges, params);
    assert_eq!(dataset.features(), 14);
    (dataset.records(), dataset.targets())
}

#[test]
fn datasets_follow_each_other() {
    let first = || {
        Discharge::new(
            DisruptionClass::Anomaly,
            vec![signal(SignalType::Densidad, &wave(35, 0.3, 2.0))],
        )
    };
    let second = || {
        Discharge::new(
            DisruptionClass::Normal,
            vec![signal(SignalType::Densidad, &wave(50, 0.8, -3.0))],
        )
    };
    let params = NormalizationParams::of_discharges(&vec![first(), second()]);
    let (mut rows, mut targets) = table(vec![first()], &params);
    assert_eq!(rows.len(), 2);
    let (more_rows, more_targets) = table(vec![second()], &params);
    assert_eq!(more_rows.len(), 3);
    rows.extend(more_rows);
    targets.extend(more_targets);
    assert_eq!(targets, vec![true, true, false, false, false]);
    assert_eq!(table(vec![first(), second()], &params), (rows, targets));
}

#[test]
fn an_overwritten_signal_has_no_influence() {
    let with_earlier = |values: &[f64]| {
        vec![Discharge::new(
            DisruptionClass::Anomaly,
            vec![
                signal(SignalType::ModeLock, values),
                signal(SignalType::Inductancia, &wave(32, 0.5, 1.0)),
                signal(SignalType::ModeLock, &wave(32, 0.7, 2.0)),
            ],
        )]
    };
    let some = wave(32, 0.1, 4.0);
    let other = wave(32, 1.3, -4.0);
    let params = NormalizationParams::of_discharges(&with_earlier(&some));
    let (rows, targets) = table(with_earlier(&some), &params);
    assert_eq!(rows.len(), 2);
    assert_eq!(table(with_earlier(&other), &params), (rows.clone(), targets));
    // The number of windows is still that of the first signal.
    assert_eq!(table(with_earlier(&some[..16]), &params).0, rows[..1].to_vec());
}

#[test]
fn the_order_of_signals_has_no_influence() {
    let a = || signal(SignalType::CorrientePlasma, &wave(47, 0.2, 1.0));
    let b = || signal(SignalType::PotenciaRadiada, &wave(32, 0.4, 2.0));
    let c = || signal(SignalType::Densidad, &wave(40, 0.6, 3.0));
    let of = |signals| vec![Discharge::new(DisruptionClass::Normal, signals)];
    let params = NormalizationParams::of_discharges(&of(vec![a(), b(), c()]));
    let others = NormalizationParams::of_discharges(&of(vec![c(), a(), b()]));
    assert_eq!(params.min, others.min);
    assert_eq!(params.max, others.max);
    let expected = table(of(vec![a(), b(), c()]), &params);
    assert_eq!(expected.0.len(), 2);
    assert_eq!(table(of(vec![c(), a(), b()]), &params), expected);
    assert_eq!(table(of(vec![b(), c(), a()]), &params), expected);
}

#[test]
fn records_are_as_many_as_full_windows() {
    let of = |values: &[f64]| {
        Discharge::new(DisruptionClass::Normal, vec![signal(SignalType::Densidad, values)])
    };
    let discharges = || {
        vec![of(&wave(15, 0.1, 1.0)), of(&wave(49, 0.2, 1.0)), of(&[]), of(&wave(16, 0.3, 1.0))]
    };
    let params = NormalizationParams::of_discharges(&discharges());
    let (rows, targets) = table(discharges(), &params);
    assert_eq!(rows.len(), 4);
    assert_eq!(targets.len(), 4);
}

#[test]
fn extremes_that_are_fed_back_give_the_same_signals() {
    let signals = || {
        vec![
            signal(SignalType::ModeLock, &wave(10, 0.4, 2.0)),
            signal(SignalType::Densidad, &wave(12, 0.9, 5.0)),
        ]
    };
    let (normalized, params) = Signal::normalize_vec(&Ieee, signals(), None);
    let (again, used) = Signal::normalize_vec(&Ieee, signals(), Some(&params));
    assert_eq!(used.min, params.min);
    assert_eq!(used.max, params.max);
    for (one, other) in normalized.iter().zip(again.iter()) {
        assert_eq!(one.values, other.values);
        assert_eq!((one.min, one.max), (other.min, other.max));
    }
}

#[test]
fn features_of_values_follow_each_other() {
    let first = wave(32, 0.37, 4.0);
    let second = wave(21, 0.91, -1.0);
    let both: Vec<f64> = first.iter().chain(second.iter()).copied().collect();
    let of = |values: &[f64]| {
        let (means, deviations) = signal(SignalType::Densidad, values).get_features(&Ieee, 16);
        (means.values, deviations.values)
    };
    let (mut means, mut deviations) = of(&first);
    let (more_means, more_deviations) = of(&second);
    means.extend(more_means);
    deviations.extend(more_deviations);
    assert_eq!(means.len(), 3);
    assert_eq!(of(&both), (means, deviations));
}

#[test]
fn normalizing_twice_is_normalizing_once() {
    let mut s = signal(SignalType::ModeLock, &wave(40, 0.7, 9.0));
    s._normalize(&Ieee);
    assert_eq!(f64::from_bits(s._min()), 0.0);
    assert_eq!(f64::from_bits(s._max()), 1.0);
    let once = numbers(&s.values);
    assert!(once.iter().all(|x| (0.0..=1.0).contains(x)));
    s._normalize(&Ieee);
    assert_eq!(numbers(&s.values), once);
}

fn sent(anomaly_time: Option<f64>, signals: &[(&str, Vec<f64>)]) -> api::Discharge {
    api::Discharge {
        id: "1".to_string(),
        times: vec![],
        length: 0,
        anomaly_time: anomaly_time.map(|t| t.to_bits()),
        signals: signals
            .iter()
            .map(|(filename, values)| api::Signal {
                filename: filename.to_string(),
                values: bits(values),
            })
            .collect(),
    }
}

#[test]
fn training_uses_the_extremes_of_all_discharges() {
    let low: Vec<f64> = (0..16).map(|i| i as f64).collect();
    let high: Vec<f64> = (0..16).map(|i| i as f64 + 15.0).collect();
    let dataset = training_dataset(
        &Ieee,
        &vec![
            sent(None, &[("DES_1_1_r2_sliding.txt", low.clone()), ("skipped", high.clone())]),
            sent(Some(0.5), &[("DES_2_1_r2_sliding.txt", high.clone())]),
        ],
    );
    assert_eq!(dataset.targets(), vec![false, true]);
    let records = dataset.records();
    assert_eq!(f64::from_bits(records[0][0]), expected_features(&scaled(&low, 0.0, 30.0), 16).0[0]);
    assert_eq!(f64::from_bits(records[1][0]), expected_features(&scaled(&high, 0.0, 30.0), 16).0[0]);
}

#[test]
fn without_a_model_nothing_is_predicted() {
    let discharge = sent(None, &[("DES_1_1_r2_sliding.txt", wave(32, 0.1, 1.0))]);
    match process_prediction_request(&Ieee, &discharge, false) {
        PredictionStep::Answer(response) => {
            assert_eq!(response.prediction, "Unknown");
            assert_eq!(response.confidence, 0.0f64.to_bits());
            assert_eq!(response.execution_time_ms, 0.0f64.to_bits());
            assert_eq!(response.model, "none");
            assert_eq!(response.window_size, 16);
            assert!(response.windows.is_empty());
        }
        PredictionStep::Classify(_) => panic!("classified without a model"),
    }
}

#[test]
fn with_a_model_the_windows_are_classified() {
    let values = wave(32, 0.1, 1.0);
    let discharge = sent(Some(1.0), &[("DES_1_1_r2_sliding.txt", values.clone())]);
    match process_prediction_request(&Ieee, &discharge, true) {
        PredictionStep::Classify(dataset) => {
            assert_eq!(dataset.targets(), vec![false, false]);
            let low = values.iter().copied().fold(f64::INFINITY, f64::min);
            let high = values.iter().copied().fold(f64::NEG_INFINITY, f64::max);
            let (means, deviations) = expected_features(&scaled(&values, low, high), 16);
            let records = dataset.records();
            for w in 0..2 {
                assert_eq!(f64::from_bits(records[w][0]), means[w]);
                assert_eq!(f64::from_bits(records[w][7]), deviations[w]);
            }
        }
        PredictionStep::Answer(_) => panic!("answered without classifying"),
    }
}

#[test]
fn only_names_and_values_decide() {
    let signals = [
        ("DES_1_1_r2_sliding.txt", wave(32, 0.1, 1.0)),
        ("unreadable", vec![1.0]),
        ("DES_1_5_r2_sliding.txt", wave(40, 0.6, 2.0)),
    ];
    let plain = sent(None, &signals);
    let mut other = sent(Some(3.5), &signals);
    other.id = "another".to_string();
    other.times = bits(&[0.0, 1.0, 2.0]);
    other.length = 3;
    let of = |discharge: &api::Discharge| match process_prediction_request(&Ieee, discharge, true) {
        PredictionStep::Classify(dataset) => {
            assert_eq!(dataset.features(), 14);
            (dataset.records(), dataset.targets())
        }
        PredictionStep::Answer(_) => panic!("answered without classifying"),
    };
    assert_eq!(of(&plain).0.len(), 2);
    assert_eq!(of(&plain), of(&other));

    let mut same_class = other.clone();
    same_class.id = "a third".to_string();
    same_class.anomaly_time = Some(7.0f64.to_bits());
    let trained = training_dataset(&Ieee, &vec![other]);
    let again = training_dataset(&Ieee, &vec![same_class]);
    assert_eq!(trained.records(), again.records());
    assert_eq!(trained.targets(), vec![true, true]);
    assert_eq!(again.targets(), vec![true, true]);
}

#[test]
fn a_majority_of_windows_decides() {
    assert_eq!(count_anomalies(&vec![true, false, true]), 2);
    for (predictions, share, name) in [
        (vec![], 0.0, "Normal"),
        (vec![false], 0.0, "Normal"),
        (vec![true], 1.0, "Anomaly"),
        (vec![true, false], 0.5, "Normal"),
        (vec![true, true, false], 2.0 / 3.0, "Anomaly"),
        (vec![true, false, false], 1.0 / 3.0, "Normal"),
    ] {
        let r = confidence(&Ieee, &predictions);
        assert_eq!(f64::from_bits(r), share);
        assert_eq!(verdict(r), name);
    }
    assert_eq!(verdict(f64::NAN.to_bits()), "Normal");
    assert_eq!(verdict((-1.0f64).to_bits()), "Normal");
}

#[test]
fn a_prediction_tells_of_every_window() {
    let records = vec![bits(&[1.0, 2.0]), bits(&[3.0, 4.0]), bits(&[5.0, 6.0])];
    let response = prediction_response(
        &Ieee,
        &records,
        &vec![true, false, true],
        &bits(&[0.5, -0.25, 1.5]),
        7.0f64.to_bits(),
    );
    assert_eq!(response.prediction, "Anomaly");
    assert_eq!(f64::from_bits(response.confidence), 2.0 / 3.0);
    assert_eq!(f64::from_bits(response.execution_time_ms), 7.0);
    assert_eq!(response.model, "svm");
    assert_eq!(response.window_size, 16);
    let names: Vec<&str> = response.windows.iter().map(|w| w.prediction.as_str()).collect();
    assert_eq!(names, vec!["Anomaly", "Normal", "Anomaly"]);
    let rows: Vec<Vec<u64>> = response.windows.iter().map(|w| w.feature_values.clone()).collect();
    assert_eq!(rows, records);
    let distances: Vec<f64> =
        response.windows.iter().map(|w| f64::from_bits(w.distance)).collect();
    assert_eq!(distances, vec![0.5, -0.25, 1.5]);
}

//! What clients send.
use svm::api::{
    api_discharge_to_internal_signals, api_signal_to_internal, get_discharge_type_from_file_name,
    skipped_signal_messages, Discharge, Signal,
};
use svm::signals::{DisruptionClass, SignalType};

const TYPES: [SignalType; 7] = [
    SignalType::CorrientePlasma,
    SignalType::ModeLock,
    SignalType::Inductancia,
    SignalType::Densidad,
    SignalType::DerivadaEnergiaDiamagnetica,
    SignalType::PotenciaRadiada,
    SignalType::PotenciaDeEntrada,
];

#[test]
fn file_names_tell_types() {
    for (i, signal_type) in TYPES.iter().enumerate() {
        assert_eq!(signal_type.code() as usize, i + 1);
        let name = format!("DES_85011_{}_r2_sliding.txt", signal_type.code());
        assert_eq!(get_discharge_type_from_file_name(&name), Ok(*signal_type));
    }
    assert_eq!(get_discharge_type_from_file_name("__2"), Ok(SignalType::ModeLock));
    assert_eq!(get_discharge_type_from_file_name("a_b_+03_c"), Ok(SignalType::Inductancia));
}

#[test]
fn bad_file_names_are_told() {
    let error = |name| get_discharge_type_from_file_name(name).unwrap_err();
    assert_eq!(error("DES_85011"), "Invalid file name format: DES_85011");
    assert_eq!(error(""), "Invalid file name format: ");
    assert_eq!(error("a_b_c_d"), "Invalid signal type in file name: a_b_c_d");
    assert_eq!(error("a_b_"), "Invalid signal type in file name: a_b_");
    assert_eq!(error("a_b_3.txt"), "Invalid signal type in file name: a_b_3.txt");
    assert_eq!(error("a_b_8_c"), "Unknown signal type: 8");
    assert_eq!(error("a_b_0_c"), "Unknown signal type: 0");
    assert_eq!(error("a_b_-42_c"), "Unknown signal type: -42");
    assert_eq!(error("a_b_2147483648"), "Invalid signal type in file name: a_b_2147483648");
}

fn sent(filename: &str, values: &[f64]) -> Signal {
    Signal {
        filename: filename.to_string(),
        values: values.iter().map(|x| x.to_bits()).collect(),
    }
}

#[test]
fn a_signal_keeps_its_name_and_values() {
    let signal = sent("DES_1_4_r2_sliding.txt", &[2.0, -1.0, 5.0]);
    let internal = api_signal_to_internal(&signal, DisruptionClass::Unknown).unwrap();
    assert_eq!(internal.label, "DES_1_4_r2_sliding.txt");
    assert_eq!(internal.values, signal.values);
    assert!(internal._times.is_empty());
    assert_eq!(internal.class, DisruptionClass::Unknown);
    assert_eq!(internal.signal_type, SignalType::Densidad);
    assert_eq!(f64::from_bits(internal._min()), -1.0);
    assert_eq!(f64::from_bits(internal._max()), 5.0);
    let bad = api_signal_to_internal(&sent("x", &[]), DisruptionClass::Normal);
    assert_eq!(bad.err(), Some("Invalid file name format: x".to_string()));
}

#[test]
fn unreadable_signals_are_left_out() {
    let mut discharge = Discharge {
        id: "1".to_string(),
        times: vec![],
        length: 3,
        anomaly_time: None,
        signals: vec![
            sent("DES_1_2_r2_sliding.txt", &[1.0]),
            sent("notes.txt", &[2.0]),
            sent("DES_1_9_r2_sliding.txt", &[3.0]),
            sent("DES_1_1_r2_sliding.txt", &[4.0]),
        ],
    };
    let kinds = |d: &Discharge| -> Vec<(SignalType, DisruptionClass)> {
        api_discharge_to_internal_signals(d).iter().map(|s| (s.signal_type, s.class)).collect()
    };
    assert_eq!(
        kinds(&discharge),
        vec![
            (SignalType::ModeLock, DisruptionClass::Normal),
            (SignalType::CorrientePlasma, DisruptionClass::Normal),
        ]
    );
    discharge.anomaly_time = Some(0.25f64.to_bits());
    assert_eq!(
        kinds(&discharge),
        vec![
            (SignalType::ModeLock, DisruptionClass::Anomaly),
            (SignalType::CorrientePlasma, DisruptionClass::Anomaly),
        ]
    );
}

#[test]
fn left_out_signals_are_complained_about_in_order() {
    let discharge = Discharge {
        id: "1".to_string(),
        times: vec![],
        length: 3,
        anomaly_time: None,
        signals: vec![
            sent("DES_1_9_r2_sliding.txt", &[3.0]),
            sent("DES_1_2_r2_sliding.txt", &[1.0]),
            sent("notes.txt", &[2.0]),
            sent("DES_1_x_r2_sliding.txt", &[]),
            sent("DES_1_1_r2_sliding.txt", &[4.0]),
        ],
    };
    let messages = skipped_signal_messages(&discharge);
    assert_eq!(
        messages,
        vec![
            "Unknown signal type: 9",
            "Invalid file name format: notes.txt",
            "Invalid signal type in file name: DES_1_x_r2_sliding.txt",
        ]
    );
    let taken = api_discharge_to_internal_signals(&discharge);
    assert_eq!(taken.len() + messages.len(), discharge.signals.len());
    let empty = Discharge { signals: vec![], ..discharge };
    assert!(skipped_signal_messages(&empty).is_empty());
}

//! The session in which discharges are collected.
use svm::api::{Discharge, Signal};
use svm::training::{
    identified_response, push_discharge, start_training, training_response, DischargeAck,
    PushReply, StartReply, StartTrainingRequest, StartTrainingResponse, TrainingSession, ACCURACY,
    F1_SCORE, LOSS,
};

fn discharge(id: &str) -> Discharge {
    Discharge {
        id: id.to_string(),
        times: vec![],
        length: 0,
        anomaly_time: None,
        signals: vec![Signal { filename: String::new(), values: vec![] }],
    }
}

fn request(total_discharges: usize) -> StartTrainingRequest {
    StartTrainingRequest { total_discharges, timeout_seconds: 60 }
}

#[test]
fn discharges_in_order_complete_a_session() {
    let mut training: Option<TrainingSession> = None;
    assert!(matches!(
        start_training(&mut training, &request(3)),
        StartReply::Started(StartTrainingResponse { expected_discharges: 3 })
    ));
    for (ordinal, id) in [(1, "a"), (2, "b")] {
        match push_discharge(&mut training, ordinal, discharge(id)) {
            PushReply::Accepted(ack) => {
                assert_eq!(ack, DischargeAck { ordinal, total_discharges: 3 })
            }
            _ => panic!("not accepted"),
        }
    }
    match push_discharge(&mut training, 3, discharge("c")) {
        PushReply::Completed(ack, discharges) => {
            assert_eq!(ack, DischargeAck { ordinal: 3, total_discharges: 3 });
            let ids: Vec<&str> = discharges.iter().map(|d| d.id.as_str()).collect();
            assert_eq!(ids, vec!["a", "b", "c"]);
        }
        _ => panic!("not completed"),
    }
    assert!(training.is_none());
    assert!(matches!(start_training(&mut training, &request(1)), StartReply::Started(_)));
}

#[test]
fn a_session_of_one_completes_at_once() {
    let mut training = None;
    start_training(&mut training, &request(1));
    assert!(matches!(
        push_discharge(&mut training, 1, discharge("a")),
        PushReply::Completed(DischargeAck { ordinal: 1, total_discharges: 1 }, _)
    ));
}

#[test]
fn no_session_while_one_is_in_progress() {
    let mut training = None;
    start_training(&mut training, &request(2));
    push_discharge(&mut training, 1, discharge("a"));
    assert!(matches!(start_training(&mut training, &request(9)), StartReply::Unavailable));
    let session = training.as_ref().unwrap();
    assert_eq!(session.total_discharges, 2);
    assert_eq!(session.discharges.len(), 1);
}

#[test]
fn no_discharge_without_a_session() {
    let mut training = None;
    assert!(matches!(
        push_discharge(&mut training, 1, discharge("a")),
        PushReply::Unavailable
    ));
    assert!(training.is_none());
}

#[test]
fn discharges_out_of_turn_are_refused() {
    let mut training = None;
    start_training(&mut training, &request(3));
    push_discharge(&mut training, 1, discharge("a"));
    for ordinal in [0, 1, 3, 4, usize::MAX] {
        assert!(matches!(
            push_discharge(&mut training, ordinal, discharge("x")),
            PushReply::BadRequest
        ));
        assert_eq!(training.as_ref().unwrap().discharges.len(), 1);
    }
    assert!(matches!(
        push_discharge(&mut training, 2, discharge("b")),
        PushReply::Accepted(_)
    ));
}

#[test]
fn a_session_over_nothing_takes_nothing() {
    let mut training = None;
    assert!(matches!(
        start_training(&mut training, &request(0)),
        StartReply::Started(StartTrainingResponse { expected_discharges: 0 })
    ));
    for ordinal in [0, 1, 2] {
        assert!(matches!(
            push_discharge(&mut training, ordinal, discharge("x")),
            PushReply::BadRequest
        ));
    }
    assert!(training.is_some());
}

#[test]
fn a_training_is_answered() {
    let response = identified_response("7", 12.0f64.to_bits());
    assert_eq!(response.status, "success");
    assert_eq!(response.message, "Entrenamiento completado con éxito");
    assert_eq!(response.training_id, "train_7");
    assert_eq!(f64::from_bits(response.metrics.accuracy), 0.95);
    assert_eq!(f64::from_bits(response.metrics.loss), 0.12);
    assert_eq!(f64::from_bits(response.metrics.f1_score), 0.94);
    assert_eq!(f64::from_bits(response.execution_time_ms), 12.0);
    assert_eq!(
        (ACCURACY, LOSS, F1_SCORE),
        (0.95f64.to_bits(), 0.12f64.to_bits(), 0.94f64.to_bits())
    );
}

#[test]
fn trainings_have_identifiers_of_their_own() {
    let first = training_response(0);
    let second = training_response(0);
    assert_ne!(first.training_id, second.training_id);
    for response in [first, second] {
        assert_eq!(response.status, "success");
        let id = response.training_id.strip_prefix("train_").unwrap();
        let parsed = uuid::Uuid::parse_str(id).unwrap();
        assert_eq!(parsed.get_version_num(), 4);
        assert_eq!(parsed.get_variant(), uuid::Variant::RFC4122);
        assert_eq!(id.len(), 36);
        assert_eq!(id, id.to_lowercase());
        let id = id.as_bytes();
        assert_eq!([id[8], id[13], id[18], id[23], id[14]], *b"----4");
    }
}

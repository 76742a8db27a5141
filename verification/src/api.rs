//! What clients send, and how it becomes the signals of a discharge.
use vstd::prelude::*;
use vstd::string::*;

use crate::doubles::{is_greatest, is_least, lowest_and_highest_are_extreme};
use crate::signals::{DisruptionClass, Signal as InternalSignal, SignalType};
use crate::text::{
    decimal, decimal_is_read_back, fields, integer_32, joined_fields, one_field, parse_integer,
    signed_decimal, signed_decimal_text, split, views,
};

verus! {

/// A signal as a client sends it.
#[derive(Clone)]
pub struct Signal {
    pub filename: String,
    pub values: Vec<u64>,
}

/// A discharge as a client sends it. It has a time of the anomaly where one occurred.
#[derive(Clone)]
pub struct Discharge {
    pub id: String,
    pub times: Vec<u64>,
    pub length: usize,
    pub anomaly_time: Option<u64>,
    pub signals: Vec<Signal>,
}

/// The signal type with the number `n`.
pub open spec fn type_numbered(n: int) -> Option<SignalType> {
    if n == 1 {
        Some(SignalType::CorrientePlasma)
    } else if n == 2 {
        Some(SignalType::ModeLock)
    } else if n == 3 {
        Some(SignalType::Inductancia)
    } else if n == 4 {
        Some(SignalType::Densidad)
    } else if n == 5 {
        Some(SignalType::DerivadaEnergiaDiamagnetica)
    } else if n == 6 {
        Some(SignalType::PotenciaRadiada)
    } else if n == 7 {
        Some(SignalType::PotenciaDeEntrada)
    } else {
        None
    }
}

/// The signal type that a file name tells, or what is wrong with the name: the
/// third of its fields between underscores is the number of the type.
pub open spec fn file_name_type(name: Seq<char>) -> Result<SignalType, Seq<char>> {
    let parts = fields(name, '_');
    if parts.len() < 3 {
        Err("Invalid file name format: "@ + name)
    } else {
        match integer_32(parts[2]) {
            None => Err("Invalid signal type in file name: "@ + name),
            Some(n) => match type_numbered(n as int) {
                None => Err("Unknown signal type: "@ + signed_decimal(n as int)),
                Some(signal_type) => Ok(signal_type),
            },
        }
    }
}

/// The class of the signals of a discharge.
pub open spec fn signal_class(discharge: Discharge) -> DisruptionClass {
    match discharge.anomaly_time {
        Some(_) => DisruptionClass::Anomaly,
        None => DisruptionClass::Normal,
    }
}

/// `signal` is the signal that `sent` describes.
pub open spec fn is_internal(
    sent: Signal,
    class: DisruptionClass,
    signal_type: SignalType,
    signal: InternalSignal,
) -> bool {
    &&& signal.label@ == sent.filename@
    &&& signal.values@ == sent.values@
    &&& signal._times@.len() == 0
    &&& signal.class == class
    &&& signal.signal_type == signal_type
    &&& signal.well_formed()
}

/// Those of `sent` whose file names tell a signal type, in their order.
pub open spec fn readable(sent: Seq<Signal>) -> Seq<Signal> {
    sent.filter(|s: Signal| file_name_type(s.filename@) is Ok)
}

/// What is wrong with the names of those of `sent` that tell no signal type, in their
/// order.
pub open spec fn complaints(sent: Seq<Signal>) -> Seq<Seq<char>> {
    sent.filter(|s: Signal| file_name_type(s.filename@) is Err).map_values(
        |s: Signal| file_name_type(s.filename@)->Err_0,
    )
}

/// The characters of each of `texts`.
pub open spec fn characters(texts: Seq<String>) -> Seq<Seq<char>> {
    texts.map_values(|text: String| text@)
}

/// `signals` are those of `discharge` whose file names tell a signal type.
pub open spec fn are_internal(discharge: Discharge, signals: Seq<InternalSignal>) -> bool {
    let sent = readable(discharge.signals@);
    &&& signals.len() == sent.len()
    &&& forall|i: int|
        0 <= i < sent.len() ==> is_internal(
            sent[i],
            signal_class(discharge),
            file_name_type(sent[i].filename@)->Ok_0,
            #[trigger] signals[i],
        )
}

/// The signal type that a file name tells. File names are of the form
/// `DES_<discharge_id>_<signal_type>_r2_sliding.txt`.
pub fn get_discharge_type_from_file_name(file_name: &str) -> (r: Result<SignalType, String>)
    ensures
        match file_name_type(file_name@) {
            Ok(signal_type) => r == Ok::<SignalType, String>(signal_type),
            Err(message) => r is Err && r->Err_0@ == message,
        },
{
    let parts = split(file_name, '_');
    if parts.len() < 3 {
        let mut message = String::from_str("Invalid file name format: ");
        message.append(file_name);
        return Err(message);
    }
    assert(views(parts@)[2] == parts@[2]@);
    let signal_type_int: i32 = match parse_integer(&parts[2]) {
        Some(n) => n,
        None => {
            let mut message = String::from_str("Invalid signal type in file name: ");
            message.append(file_name);
            return Err(message);
        },
    };
    match signal_type_int {
        1 => Ok(SignalType::CorrientePlasma),
        2 => Ok(SignalType::ModeLock),
        3 => Ok(SignalType::Inductancia),
        4 => Ok(SignalType::Densidad),
        5 => Ok(SignalType::DerivadaEnergiaDiamagnetica),
        6 => Ok(SignalType::PotenciaRadiada),
        7 => Ok(SignalType::PotenciaDeEntrada),
        _ => {
            let mut message = String::from_str("Unknown signal type: ");
            let number = signed_decimal_text(signal_type_int);
            message.append(number.as_str());
            Err(message)
        },
    }
}

/// The signal that a client's signal describes.
pub fn api_signal_to_internal(api_signal: &Signal, signal_class: DisruptionClass) -> (r: Result<
    InternalSignal,
    String,
>)
    ensures
        match file_name_type(api_signal.filename@) {
            Ok(signal_type) => r is Ok && is_internal(
                *api_signal,
                signal_class,
                signal_type,
                r->Ok_0,
            ),
            Err(message) => r is Err && r->Err_0@ == message,
        },
{
    match get_discharge_type_from_file_name(api_signal.filename.as_str()) {
        Ok(signal_type) => {
            let values = api_signal.values.clone();
            assert(values@ =~= api_signal.values@);
            Ok(InternalSignal::new(api_signal.filename.clone(), values, signal_class, signal_type))
        },
        Err(message) => Err(message),
    }
}

/// The signals of a client's discharge. Signals whose file names tell no type are left out.
pub fn api_discharge_to_internal_signals(discharge: &Discharge) -> (signals: Vec<InternalSignal>)
    ensures
        are_internal(*discharge, signals@),
{
    let class = match discharge.anomaly_time {
        Some(_) => DisruptionClass::Anomaly,
        None => DisruptionClass::Normal,
    };
    let mut signals: Vec<InternalSignal> = Vec::new();
    let mut i: usize = 0;
    assert(readable(discharge.signals@.take(0)) =~= Seq::<Signal>::empty());
    while i < discharge.signals.len()
        invariant
            i <= discharge.signals@.len(),
            class == signal_class(*discharge),
            signals@.len() == readable(discharge.signals@.take(i as int)).len(),
            forall|j: int|
                0 <= j < signals@.len() ==> is_internal(
                    readable(discharge.signals@.take(i as int))[j],
                    class,
                    file_name_type(
                        readable(discharge.signals@.take(i as int))[j].filename@,
                    )->Ok_0,
                    #[trigger] signals@[j],
                ),
        decreases discharge.signals@.len() - i,
    {
        let sent = &discharge.signals[i];
        proof {
            let now = discharge.signals@.take(i + 1);
            assert(now.drop_last() =~= discharge.signals@.take(i as int));
            reveal(Seq::filter);
        }
        match api_signal_to_internal(sent, class) {
            Ok(signal) => {
                signals.push(signal);
            },
            Err(_) => {},
        }
        i = i + 1;
    }
    assert(discharge.signals@.take(i as int) =~= discharge.signals@);
    signals
}

/// What is wrong with the names of the signals of a client's discharge that are left
/// out, one message for each, in their order.
pub fn skipped_signal_messages(discharge: &Discharge) -> (messages: Vec<String>)
    ensures
        characters(messages@) == complaints(discharge.signals@),
{
    let mut messages: Vec<String> = Vec::new();
    let mut i: usize = 0;
    assert(characters(messages@) =~= complaints(discharge.signals@.take(0))) by {
        reveal(Seq::filter);
    }
    while i < discharge.signals.len()
        invariant
            i <= discharge.signals@.len(),
            characters(messages@) == complaints(discharge.signals@.take(i as int)),
        decreases discharge.signals@.len() - i,
    {
        let ghost before = messages@;
        match get_discharge_type_from_file_name(discharge.signals[i].filename.as_str()) {
            Ok(_) => {},
            Err(message) => {
                messages.push(message);
            },
        }
        proof {
            let now = discharge.signals@.take(i + 1);
            assert(now.drop_last() =~= discharge.signals@.take(i as int));
            reveal(Seq::filter);
            if messages@.len() > before.len() {
                assert(characters(messages@) =~= characters(before).push(messages@.last()@));
            }
            assert(characters(messages@) =~= complaints(now));
        }
        i = i + 1;
    }
    assert(discharge.signals@.take(i as int) =~= discharge.signals@);
    messages
}

/// Every signal that is sent is either taken over or complained about.
pub proof fn nothing_is_left_out_silently(sent: Seq<Signal>)
    ensures
        readable(sent).len() + complaints(sent).len() == sent.len(),
    decreases sent.len(),
{
    reveal(Seq::filter);
    if sent.len() > 0 {
        nothing_is_left_out_silently(sent.drop_last());
    }
}

/// Whether two discharges have signals of the same names and values.
pub open spec fn same_sent_signals(d: Discharge, e: Discharge) -> bool {
    &&& d.signals@.len() == e.signals@.len()
    &&& forall|i: int|
        0 <= i < d.signals@.len() ==> {
            &&& (#[trigger] d.signals@[i]).filename@ == e.signals@[i].filename@
            &&& d.signals@[i].values@ == e.signals@[i].values@
        }
}

/// Two discharges agree in their signals in whichever order they are taken.
pub proof fn same_both_ways(d: Discharge, e: Discharge)
    requires
        same_sent_signals(d, e),
    ensures
        same_sent_signals(e, d),
{
    assert forall|i: int| 0 <= i < e.signals@.len() implies (#[trigger] e.signals@[i]).filename@
        == d.signals@[i].filename@ && e.signals@[i].values@ == d.signals@[i].values@ by {
        assert(d.signals@[i].filename@ == e.signals@[i].filename@);
    }
}

/// The signals with another class.
pub open spec fn with_class(
    signals: Seq<InternalSignal>,
    class: DisruptionClass,
) -> Seq<InternalSignal> {
    signals.map_values(|signal: InternalSignal| InternalSignal { class, ..signal })
}

/// The signals that a client's discharge describes depend on the names and values
/// of what was sent, and in their class on whether there is a time of an anomaly.
pub proof fn internal_by_names_and_values(
    d: Discharge,
    e: Discharge,
    signals: Seq<InternalSignal>,
)
    requires
        same_sent_signals(d, e),
        are_internal(d, signals),
    ensures
        are_internal(e, with_class(signals, signal_class(e))),
{
    let s = readable(d.signals@);
    let t = readable(e.signals@);
    same_readable(d.signals@, e.signals@);
    let others = with_class(signals, signal_class(e));
    assert forall|i: int| 0 <= i < t.len() implies is_internal(
        t[i],
        signal_class(e),
        file_name_type(t[i].filename@)->Ok_0,
        #[trigger] others[i],
    ) by {
        assert(is_internal(
            s[i],
            signal_class(d),
            file_name_type(s[i].filename@)->Ok_0,
            signals[i],
        ));
    }
}

/// Signals that are of a class stay as they are with this class.
pub proof fn with_their_class(signals: Seq<InternalSignal>, class: DisruptionClass)
    requires
        forall|i: int| 0 <= i < signals.len() ==> (#[trigger] signals[i]).class == class,
    ensures
        with_class(signals, class) == signals,
{
    assert(with_class(signals, class) =~= signals);
}

/// Signals that agree in names and values are left out in the same places.
proof fn same_readable(s: Seq<Signal>, t: Seq<Signal>)
    requires
        s.len() == t.len(),
        forall|i: int|
            0 <= i < s.len() ==> {
                &&& (#[trigger] s[i]).filename@ == t[i].filename@
                &&& s[i].values@ == t[i].values@
            },
    ensures
        readable(s).len() == readable(t).len(),
        forall|i: int|
            0 <= i < readable(s).len() ==> {
                &&& (#[trigger] readable(s)[i]).filename@ == readable(t)[i].filename@
                &&& readable(s)[i].values@ == readable(t)[i].values@
            },
    decreases s.len(),
{
    reveal(Seq::filter);
    if s.len() > 0 {
        let p = s.drop_last();
        let q = t.drop_last();
        assert forall|i: int| 0 <= i < p.len() implies (#[trigger] p[i]).filename@
            == q[i].filename@ && p[i].values@ == q[i].values@ by {
            assert(s[i].filename@ == t[i].filename@);
        }
        same_readable(p, q);
        assert(s[s.len() - 1].filename@ == t[s.len() - 1].filename@);
        if file_name_type(s.last().filename@) is Ok {
            assert(readable(s) =~= readable(p).push(s.last()));
            assert(readable(t) =~= readable(q).push(t.last()));
            assert forall|i: int| 0 <= i < readable(s).len() implies (#[trigger] readable(
                s,
            )[i]).filename@ == readable(t)[i].filename@ && readable(s)[i].values@ == readable(
                t,
            )[i].values@ by {
                if i < readable(p).len() {
                    assert(readable(p)[i].filename@ == readable(q)[i].filename@);
                }
            }
        } else {
            assert(readable(s) == readable(p));
            assert(readable(t) == readable(q));
        }
    }
}

/// The number of a signal type leads back to the type.
pub proof fn types_are_numbered(signal_type: SignalType)
    ensures
        type_numbered(signal_type.key() as int) == Some(signal_type),
{
}

/// In a file name whose first three fields are `first`, `second` and `third`, the
/// third is what tells the signal type, whatever stands behind it.
pub proof fn third_field_tells(
    first: Seq<char>,
    second: Seq<char>,
    third: Seq<char>,
    rest: Seq<char>,
)
    requires
        !first.contains('_'),
        !second.contains('_'),
        !third.contains('_'),
    ensures
        ({
            let name = first.push('_') + (second.push('_') + (third.push('_') + rest));
            fields(name, '_').len() > 3 && fields(name, '_')[2] == third
        }),
{
    one_field(first, '_');
    one_field(second, '_');
    one_field(third, '_');
    joined_fields(third, rest, '_');
    joined_fields(second, third.push('_') + rest, '_');
    joined_fields(first, second.push('_') + (third.push('_') + rest), '_');
}

/// Every file name of the form `DES_<discharge_id>_<signal_type>_r2_sliding.txt`
/// tells the signal type whose number it holds, where the identifier of the
/// discharge has no underscore.
pub proof fn pattern_tells_type(id: Seq<char>, signal_type: SignalType)
    requires
        !id.contains('_'),
    ensures
        file_name_type(
            "DES_"@ + id + "_"@ + decimal(signal_type.key() as nat) + "_r2_sliding.txt"@,
        ) == Ok::<SignalType, Seq<char>>(signal_type),
{
    let n = signal_type.key();
    let number = decimal(n as nat);
    let name = "DES_"@ + id + "_"@ + number + "_r2_sliding.txt"@;
    reveal_strlit("DES_");
    reveal_strlit("_");
    reveal_strlit("_r2_sliding.txt");
    let tail = "_r2_sliding.txt"@;
    let rest = tail.subrange(1, tail.len() as int);
    let first = seq!['D', 'E', 'S'];
    assert(number.len() == 1 && number[0] != '_');
    third_field_tells(first, id, number, rest);
    assert(name =~= first.push('_') + (id.push('_') + (number.push('_') + rest)));
    decimal_is_read_back(n as i32);
    types_are_numbered(signal_type);
}

/// A file name tells the signal type whose number is the third of its fields between
/// underscores. It is complained about where it has fewer than three fields, where the
/// third is no integer, and where no type has the number.
pub proof fn names_tell_types(name: Seq<char>)
    ensures
        ({
            let parts = fields(name, '_');
            &&& parts.len() < 3 ==> file_name_type(name) == Err::<SignalType, Seq<char>>(
                "Invalid file name format: "@ + name,
            )
            &&& parts.len() >= 3 && integer_32(parts[2]) is None ==> file_name_type(name) == Err::<
                SignalType,
                Seq<char>,
            >("Invalid signal type in file name: "@ + name)
            &&& forall|n: i32|
                parts.len() >= 3 && integer_32(parts[2]) == Some(n) && !(1 <= n <= 7)
                    ==> file_name_type(name) == Err::<SignalType, Seq<char>>(
                    "Unknown signal type: "@ + #[trigger] signed_decimal(n as int),
                )
            &&& forall|t: SignalType|
                parts.len() >= 3 && integer_32(parts[2]) == Some((#[trigger] t.key()) as i32)
                    <==> file_name_type(name) == Ok::<SignalType, Seq<char>>(t)
        }),
{
    assert forall|t: SignalType|
        fields(name, '_').len() >= 3 && integer_32(fields(name, '_')[2]) == Some(
            (#[trigger] t.key()) as i32,
        ) <==> file_name_type(name) == Ok::<SignalType, Seq<char>>(t) by {}
}

/// The type of a file name is told as its third field says, and what is wrong with it is
/// told otherwise.
pub proof fn types_are_told(file_name: &str, r: Result<SignalType, String>)
    requires
        call_ensures(get_discharge_type_from_file_name, (file_name,), r),
    ensures
        ({
            let parts = fields(file_name@, '_');
            &&& parts.len() < 3 ==> r is Err && r->Err_0@ == "Invalid file name format: "@
                + file_name@
            &&& parts.len() >= 3 && integer_32(parts[2]) is None ==> r is Err && r->Err_0@
                == "Invalid signal type in file name: "@ + file_name@
            &&& forall|n: i32|
                parts.len() >= 3 && integer_32(parts[2]) == Some(n) && !(1 <= n <= 7) ==> r is Err
                    && r->Err_0@ == "Unknown signal type: "@ + #[trigger] signed_decimal(n as int)
            &&& forall|t: SignalType|
                parts.len() >= 3 && integer_32(parts[2]) == Some((#[trigger] t.key()) as i32)
                    <==> r == Ok::<SignalType, String>(t)
        }),
{
    names_tell_types(file_name@);
    assert forall|t: SignalType|
        fields(file_name@, '_').len() >= 3 && integer_32(fields(file_name@, '_')[2]) == Some(
            (#[trigger] t.key()) as i32,
        ) <==> r == Ok::<SignalType, String>(t) by {}
}

/// A signal is taken over under its file name, with its values, the class that is asked
/// for, the type that its name tells, and the extremes of its values. It is refused
/// exactly where its name tells no type.
pub proof fn signals_are_taken_over(
    sent: Signal,
    class: DisruptionClass,
    r: Result<InternalSignal, String>,
)
    requires
        call_ensures(api_signal_to_internal, (&sent, class), r),
    ensures
        match file_name_type(sent.filename@) {
            Ok(t) => {
                &&& r is Ok
                &&& r->Ok_0.label@ == sent.filename@
                &&& r->Ok_0.values@ == sent.values@
                &&& r->Ok_0._times@.len() == 0
                &&& r->Ok_0.class == class
                &&& r->Ok_0.signal_type == t
                &&& is_least(sent.values@, r->Ok_0.min)
                &&& is_greatest(sent.values@, r->Ok_0.max)
            },
            Err(message) => r is Err && r->Err_0@ == message,
        },
{
    lowest_and_highest_are_extreme(sent.values@);
}

/// The signals of a discharge are an anomaly's exactly where there is a time of an anomaly,
/// whatever this time and everything else are, and normal otherwise.
pub proof fn a_time_makes_an_anomaly(discharge: Discharge)
    ensures
        signal_class(discharge) == DisruptionClass::Anomaly <==> discharge.anomaly_time is Some,
        signal_class(discharge) == DisruptionClass::Normal <==> discharge.anomaly_time is None,
{
}

/// What is taken over of signals, and what is complained about, goes by each signal alone
/// and keeps their order.
pub proof fn signals_are_taken_one_by_one(s: Seq<Signal>, t: Seq<Signal>, one: Signal)
    ensures
        readable(s + t) == readable(s) + readable(t),
        complaints(s + t) == complaints(s) + complaints(t),
        match file_name_type(one.filename@) {
            Ok(_) => readable(seq![one]) == seq![one] && complaints(seq![one]) == Seq::<
                Seq<char>,
            >::empty(),
            Err(message) => readable(seq![one]) == Seq::<Signal>::empty() && complaints(seq![one])
                == seq![message],
        },
    decreases t.len(),
{
    reveal(Seq::filter);
    let alone = seq![one];
    assert(alone.drop_last() =~= Seq::<Signal>::empty());
    assert(readable(alone.drop_last()) =~= Seq::<Signal>::empty());
    assert(complaints(alone.drop_last()) =~= Seq::<Seq<char>>::empty());
    match file_name_type(one.filename@) {
        Ok(_) => {
            assert(readable(alone) =~= alone);
            assert(complaints(alone) =~= Seq::<Seq<char>>::empty());
        },
        Err(message) => {
            assert(readable(alone) =~= Seq::<Signal>::empty());
            assert(complaints(alone) =~= seq![message]);
        },
    }
    if t.len() == 0 {
        assert(s + t =~= s);
        assert(readable(t) =~= Seq::<Signal>::empty());
        assert(complaints(t) =~= Seq::<Seq<char>>::empty());
        assert(readable(s) + readable(t) =~= readable(s));
        assert(complaints(s) + complaints(t) =~= complaints(s));
    } else {
        let rest = t.drop_last();
        signals_are_taken_one_by_one(s, rest, one);
        assert((s + t).drop_last() =~= s + rest);
        assert((s + t).last() == t.last());
        assert(readable(s + t) =~= readable(s) + readable(t));
        assert(complaints(s + t) =~= complaints(s) + complaints(t));
    }
}

/// Whether `signals` are those of `sent` that name their type, in their order: each under
/// its file name, with its values, the type that its name tells and the extremes of its
/// values, and all of the class that goes with the time of an anomaly.
pub open spec fn are_taken_over(sent: Discharge, signals: Seq<InternalSignal>) -> bool {
    &&& signals.len() == readable(sent.signals@).len()
    &&& forall|i: int|
        0 <= i < signals.len() ==> {
            &&& (#[trigger] signals[i]).label@ == readable(sent.signals@)[i].filename@
            &&& signals[i].values@ == readable(sent.signals@)[i].values@
            &&& signals[i]._times@.len() == 0
            &&& signals[i].class == (if sent.anomaly_time is Some {
                DisruptionClass::Anomaly
            } else {
                DisruptionClass::Normal
            })
            &&& file_name_type(signals[i].label@) == Ok::<SignalType, Seq<char>>(
                signals[i].signal_type,
            )
            &&& is_least(signals[i].values@, signals[i].min)
            &&& is_greatest(signals[i].values@, signals[i].max)
        }
}

/// What it is for signals to be those of a discharge.
pub proof fn taken_over_by(sent: Discharge, signals: Seq<InternalSignal>)
    requires
        are_internal(sent, signals),
    ensures
        are_taken_over(sent, signals),
{
    let kept = readable(sent.signals@);
    assert forall|i: int| 0 <= i < signals.len() implies {
        &&& (#[trigger] signals[i]).label@ == kept[i].filename@
        &&& signals[i].values@ == kept[i].values@
        &&& signals[i]._times@.len() == 0
        &&& signals[i].class == (if sent.anomaly_time is Some {
            DisruptionClass::Anomaly
        } else {
            DisruptionClass::Normal
        })
        &&& file_name_type(signals[i].label@) == Ok::<SignalType, Seq<char>>(
            signals[i].signal_type,
        )
        &&& is_least(signals[i].values@, signals[i].min)
        &&& is_greatest(signals[i].values@, signals[i].max)
    } by {
        assert(is_internal(
            kept[i],
            signal_class(sent),
            file_name_type(kept[i].filename@)->Ok_0,
            signals[i],
        ));
        readable_are_ok(sent.signals@, i);
        lowest_and_highest_are_extreme(signals[i].values@);
    }
}

/// The names of all signals that are taken over tell types.
proof fn readable_are_ok(sent: Seq<Signal>, i: int)
    requires
        0 <= i < readable(sent).len(),
    ensures
        file_name_type(readable(sent)[i].filename@) is Ok,
    decreases sent.len(),
{
    reveal(Seq::filter);
    if sent.len() > 0 {
        let rest = sent.drop_last();
        if i < readable(rest).len() {
            readable_are_ok(rest, i);
        }
    }
}

/// The signals of a discharge are taken over in their order, those aside that name no
/// type.
pub proof fn discharges_are_taken_over(sent: Discharge, signals: Vec<InternalSignal>)
    requires
        call_ensures(api_discharge_to_internal_signals, (&sent,), signals),
    ensures
        are_taken_over(sent, signals@),
{
    taken_over_by(sent, signals@);
}

/// The messages of a discharge are the complaints about its signals.
pub proof fn complaints_are_told(sent: Discharge, messages: Vec<String>)
    requires
        call_ensures(skipped_signal_messages, (&sent,), messages),
    ensures
        messages@.map_values(|message: String| message@) == complaints(sent.signals@),
{
    assert(messages@.map_values(|message: String| message@) =~= characters(messages@));
}

} // verus!

use libvrs::pid::ProcessId;
use libvrs::value::{Opaque, Val};
use libvrs::wire::{WireError, WireVal};

#[test]
fn wire_values_preserve_process_addresses() {
    let value = Val::List(vec![
        Val::Keyword("reply_to".to_string()),
        Val::Process(ProcessId::new("alpha", 3)),
    ]);
    let wire = WireVal::from_val(&value).unwrap();
    let remote = wire.into_val();
    assert_eq!(
        remote,
        Val::List(vec![
            Val::Keyword("reply_to".to_string()),
            Val::Process(ProcessId::new("alpha", 3)),
        ])
    );
}

#[test]
fn runtime_only_values_stay_on_their_node() {
    let value = Val::List(vec![Val::Int(1), Val::List(vec![Val::Opaque(Opaque::Lambda)])]);
    assert_eq!(WireVal::from_val(&value).unwrap_err(), WireError::CannotCrossNodes);
    let data = Val::List(vec![
        Val::Nil,
        Val::Bool(true),
        Val::String("s".to_string()),
        Val::Symbol("x".to_string()),
        Val::Error("boom".to_string()),
        Val::Ref(9),
    ]);
    assert_eq!(WireVal::from_val(&data).unwrap().into_val(), data);
    assert!(data.same(&data.duplicate()));
    assert!(!data.same(&Val::Nil));
}

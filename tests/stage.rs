use avm2_array::stage::{self, StageState, ALIGN_LEFT, ALIGN_TOP};
use avm2_array::value::{Error, Number, Value};

fn text(s: &str) -> Value {
    Value::String(s.to_string())
}

fn state() -> StageState {
    StageState { align: 0, fullscreen: false, show_menu: true, width: 550, height: 400 }
}

#[test]
fn stage_refuses_display_changes() {
    assert_eq!(
        stage::set_alpha(&[]),
        Err(Error::IllegalOperation("Error: You cannot set the stage's opacity.".to_string()))
    );
    assert_eq!(
        stage::set_y(&[]),
        Err(Error::IllegalOperation("Error: You cannot move the stage vertically.".to_string()))
    );
    assert!(matches!(stage::instance_init(&[]), Err(Error::IllegalOperation(_))));
    assert_eq!(stage::name(&[]), Ok(Value::Null));
}

#[test]
fn align_round_trip() {
    let mut s = state();
    stage::set_align(&mut s, &[text("rlbtx")]).unwrap();
    assert_eq!(stage::align(&s), Ok(text("TBLR")));
    stage::set_align(&mut s, &[text("tl")]).unwrap();
    assert_eq!(s.align, ALIGN_TOP | ALIGN_LEFT);
    assert_eq!(stage::align(&s), Ok(text("TL")));
}

#[test]
fn stage_settings() {
    let mut s = state();
    assert_eq!(stage::stage_width(&s), Ok(Value::Number(Number::Int(550))));
    assert_eq!(stage::stage_height(&s), Ok(Value::Number(Number::Int(400))));
    stage::set_stage_width(&mut s, &[Value::Number(Number::Int(1))]).unwrap();
    assert_eq!(s.width, 550);
    assert_eq!(stage::display_state(&s), Ok(text("normal")));
    stage::set_show_default_context_menu(&mut s, &[Value::Bool(false)]).unwrap();
    assert_eq!(stage::show_default_context_menu(&s), Ok(Value::Bool(false)));
    assert_eq!(stage::allows_full_screen(&[]), Ok(Value::Bool(true)));
    assert_eq!(stage::allows_full_screen_interactive(&[]), Ok(Value::Bool(false)));
}

use bts::bonzomatic::{
    file_name_with_extension, frame_message_text, history_line, unframe_message_text, Payload,
};

fn sample(compile: bool) -> Payload {
    Payload::from(
        10,
        12,
        String::from("void main(){}"),
        compile,
        5,
        String::from("replay"),
        String::from("livecode"),
        0.5f64.to_bits(),
    )
}

#[test]
fn payload_fields() {
    let p = sample(true);
    assert_eq!(p.get_anchor(), 10);
    assert_eq!(p.get_caret(), 12);
    assert_eq!(p.get_code(), "void main(){}");
    assert!(p.get_compile());
    assert_eq!(p.get_visible_line(), 5);
    assert_eq!(p.get_nickname(), "replay");
    assert_eq!(f64::from_bits(p.get_shader_time_bits()), 0.5);
}

#[test]
fn update_shader_time_changes_only_the_time() {
    let mut p = sample(false);
    p.update_shader_time_bits(2.25f64.to_bits());
    assert_eq!(f64::from_bits(p.get_shader_time_bits()), 2.25);
    assert_eq!(p.get_anchor(), 10);
    assert_eq!(p.get_code(), "void main(){}");
    assert_eq!(p.data.room_name, "livecode");
}

#[test]
fn framing_round_trip() {
    let json = "{\"Data\":{}}";
    let framed = frame_message_text(json);
    assert_eq!(framed, "{\"Data\":{}}\0");
    assert_eq!(unframe_message_text(&framed), json);
    assert_eq!(unframe_message_text("abc "), "abc");
    assert_eq!(unframe_message_text("x"), "");
}

#[test]
fn save_targets() {
    let compiled = sample(true);
    let draft = sample(false);
    assert_eq!(compiled.save_targets(true, true, true), (true, true));
    assert_eq!(draft.save_targets(true, true, true), (true, false));
    assert_eq!(draft.save_targets(false, true, false), (false, true));
    assert_eq!(compiled.save_targets(false, false, false), (false, false));
}

#[test]
fn file_names_and_history_lines() {
    assert_eq!(file_name_with_extension("room_user_1", "json"), "room_user_1.json");
    assert_eq!(file_name_with_extension("room_user_1", "glsl"), "room_user_1.glsl");
    assert_eq!(history_line("{}"), "{}\n");
}

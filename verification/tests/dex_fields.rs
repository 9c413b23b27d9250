//! The field layout of one class.
use rasc::dex::fields::{push_json_string, FieldPlan, FieldRow};

fn row(field_index: u32, type_descriptor: &str) -> FieldRow {
    FieldRow {
        field_index,
        name: format!("f{field_index}"),
        type_descriptor: type_descriptor.to_owned(),
        access_flags: 0,
    }
}

fn plan(instance: Vec<FieldRow>) -> FieldPlan {
    FieldPlan {
        descriptor: "LFixture;".to_owned(),
        instance,
        statics: Vec::new(),
    }
}

/// Only `L...;` and `[...` are references; primitives are not.
#[test]
fn fields_instance_ref_mask_marks_reference_slots_by_position() {
    let mask = plan(vec![
        row(10, "I"),
        row(11, "Ljava/lang/String;"),
        row(12, "[B"),
        row(13, "J"),
        row(14, "Lcom/foo/Bar;"),
    ])
    .instance_ref_mask();
    assert_eq!(mask, 0b1_0110);
}

/// The mask is one word: the 65th instance field is not represented, and its
/// type must not shift anything into it either.
#[test]
fn fields_instance_ref_mask_stops_after_the_64th_instance_field() {
    let mut fields: Vec<FieldRow> = (0..64).map(|i| row(i, "I")).collect();
    fields.push(row(64, "Ljava/lang/String;"));
    assert_eq!(plan(fields).instance_ref_mask(), 0);

    let mut fields: Vec<FieldRow> = (0..64).map(|i| row(i, "I")).collect();
    fields[63] = row(63, "[I");
    fields.push(row(64, "Ljava/lang/String;"));
    assert_eq!(plan(fields).instance_ref_mask(), 1 << 63);
}

/// DEX member names are arbitrary MUTF-8, so a name can carry characters that
/// would end the record early. The escaping is what keeps the record parseable
/// exactly when it matters.
#[test]
fn fields_json_string_escapes_what_a_dex_name_can_carry() {
    let mut out = String::new();
    push_json_string(&mut out, "a\"b\\c\nd\te\u{1}f\u{2028}g");
    assert_eq!(out, "\"a\\\"b\\\\c\\nd\\te\\u0001f\u{2028}g\"");
}

#[test]
fn fields_render_json_reports_position_counts_and_mask() {
    let plan = FieldPlan {
        descriptor: "Lcom/foo/Bar;".to_owned(),
        instance: vec![row(7, "Ljava/lang/Object;"), row(9, "I")],
        statics: vec![row(3, "I")],
    };
    assert_eq!(
        plan.render_json(),
        "{\"schema\":\"rasc.fields-plan/v1\",\"descriptor\":\"Lcom/foo/Bar;\",\
         \"instance_fields\":[\
         {\"field_index\":7,\"name\":\"f7\",\"type\":\"Ljava/lang/Object;\",\"access_flags\":0},\
         {\"field_index\":9,\"name\":\"f9\",\"type\":\"I\",\"access_flags\":0}],\
         \"static_fields\":[{\"field_index\":3,\"name\":\"f3\",\"type\":\"I\",\"access_flags\":0}],\
         \"counts\":{\"instance\":2,\"static\":1},\"instance_ref_mask\":\"0x1\"}"
    );
}

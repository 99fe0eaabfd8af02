use condscript::Ast;
use condscript::Slice;
use condscript::rebuild::Metadata;
use condscript::rebuild::Tag;

#[test]
fn rebuild_simple_value() {
    let ast = Ast::from("Y").unwrap();
    assert_eq!(
        ast.to_lua(&ast, 0, 0),
        (
            "return \"Y\"".to_owned(),
            Metadata(vec![
                (Slice::new(0, 10), Tag::Output),
                (Slice::new(0, 10), Tag::Statement),
            ])
        )
    )
}

#[test]
fn effect_call() {
    let ast = Ast::from("Y %=A%").unwrap();
    let val = ast.to_lua(&ast, 0, 0);
    assert_eq!(
        val,
        (
            "xr_effects.A()\n\
            return \"Y\""
                .to_owned(),
            Metadata(vec![
                (Slice::new(0, 15), Tag::Effect),
                (Slice::new(0, 15), Tag::Effects),
                (Slice::new(15, 10), Tag::Output),
                (Slice::new(0, 25), Tag::Statement),
            ])
        )
    )
}

#[test]
fn rebuild_complex() {
    let src = "{=A(a1:a2) !B +C -D ~30} X %=E(e1) +F -G%, Y";
    let ast = Ast::from(src).unwrap();

    let (lua, _meta) = ast.to_lua(&ast, 0, 0);
    println!("{}", lua);
}

#[test]
fn complex2() {
    let src = "{=A(a1:a2) !B +C -D ~30} X %=E(e1) +F -G%, {=A(a1:a2) !B +C -D ~30} Y, B";
    let ast = Ast::from(src).unwrap();

    let (lua, _meta) = ast.to_lua(&ast, 0, 0);
    println!("{}", lua);
}

#[test]
fn generator_idempotent() {
    let src = "{=A(a1:a2) !B +C -D ~30} X %=E(e1) +F -G%, Y";
    let ast = Ast::from(src).unwrap();
    let first = ast.to_lua(&ast, 0, 0);
    let second = ast.to_lua(&ast, 0, 0);
    assert_eq!(first, second);
}

#[test]
fn nested_indentation() {
    let ast = Ast::from("{+a} X %=E%").unwrap();
    let (lua, _meta) = ast.to_lua(&ast, 0, 0);
    assert_eq!(
        lua,
        "if db.actor:has_info(\"a\")\nthen\n    xr_effects.E()\n    return \"X\"\nend\n"
    );
}

#[test]
fn flat_when_no_condition() {
    let ast = Ast::from("X %=E%").unwrap();
    let (lua, _meta) = ast.to_lua(&ast, 0, 0);
    assert_eq!(lua, "xr_effects.E()\nreturn \"X\"");
}

#[test]
fn condition_rendering_joins_with_and() {
    let ast = Ast::from("{+a -b ~25} X").unwrap();
    let (lua, _meta) = ast.to_lua(&ast, 0, 0);
    assert_eq!(
        lua,
        "if db.actor:has_info(\"a\")\n        and not db.actor:has_info(\"b\")\n        and math.random(1, 100) > 25\nthen\n    return \"X\"\nend\n"
    );
}

#[test]
fn inverted_call_in_condition() {
    let ast = Ast::from("{!f(x)} Y").unwrap();
    let (lua, _meta) = ast.to_lua(&ast, 0, 0);
    assert_eq!(lua, "if not xr_conditions.f(\"x\")\nthen\n    return \"Y\"\nend\n");
}

#[test]
fn effect_probability_kept_verbatim() {
    let ast = Ast::from("X %~30%").unwrap();
    let (lua, _meta) = ast.to_lua(&ast, 0, 0);
    assert_eq!(lua, "math.random(1, 100) > 30\nreturn \"X\"");
}

#[test]
fn effect_toggles() {
    let ast = Ast::from("X %+F -G%").unwrap();
    let (lua, _meta) = ast.to_lua(&ast, 0, 0);
    assert_eq!(
        lua,
        "db.actor:give_info_portion(\"F\")\ndb.actor:disable_info_portion(\"G\")\nreturn \"X\""
    );
}

#[test]
fn nil_return_without_output() {
    let ast = Ast::from("%+F%").unwrap();
    let (lua, _meta) = ast.to_lua(&ast, 0, 0);
    assert_eq!(lua, "db.actor:give_info_portion(\"F\")\nreturn nil");
}

#[test]
fn separator_between_statements() {
    let ast = Ast::from("X, Y").unwrap();
    let (lua, _meta) = ast.to_lua(&ast, 0, 0);
    assert_eq!(lua, "return \"X\"\nreturn \"Y\"");
}

#[test]
fn condition_to_lua_base_offset() {
    let ast = Ast::from("{=A(a1:a2)} X").unwrap();
    let conds = ast.statements()[0].conditions().unwrap();
    let (lua, meta) = conds.to_lua(&ast, 10, 0);
    assert_eq!(lua, "xr_conditions.A(\"a1\",\"a2\")\n");
    assert_eq!(meta, Metadata(vec![(Slice::new(10, 27), Tag::Condition)]));
}

#[test]
fn conditioned_statement_map() {
    let ast = Ast::from("{+a} X").unwrap();
    let (lua, meta) = ast.to_lua(&ast, 0, 0);
    assert_eq!(lua, "if db.actor:has_info(\"a\")\nthen\n    return \"X\"\nend\n");
    assert_eq!(
        meta,
        Metadata(vec![
            (Slice::new(3, 23), Tag::Condition),
            (Slice::new(31, 10), Tag::Output),
            (Slice::new(0, 50), Tag::Statement),
        ])
    );
}

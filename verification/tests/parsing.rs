use condscript::Ast;
use condscript::Block;
use condscript::ParseErrorKind;
use condscript::Slice;

#[test]
fn lib_simple_value() {
    let result = Ast::from("Y").unwrap();
    assert_eq!(result.statements().len(), 1);
    assert_eq!(result.statements()[0].conditions().is_none(), true);
    assert_eq!(result.statements()[0].val().unwrap(), &Slice(0, 1));
}

#[test]
fn lib_two_values() {
    let result = Ast::from("X, Y").unwrap();
    assert_eq!(result.statements().len(), 2);
    assert_eq!(result.statements()[0].val().unwrap(), &Slice(0, 1));
    assert_eq!(result.statements()[1].val().unwrap(), &Slice(3, 1));
}

#[test]
fn lib_empty_condition() {
    let result = Ast::from("{} X").unwrap();
    assert_eq!(result.statements().len(), 1);
    assert_eq!(result.statements()[0].val().unwrap(), &Slice(3, 1));
    assert_eq!(result.statements()[0].conditions().is_some(), true);
    assert_eq!(result.statements()[0].conditions().unwrap().blocks().len(), 0);
}

#[test]
fn lib_info_condition() {
    let result = Ast::from("{+xy} X").unwrap();
    let conds = result.statements()[0].conditions().unwrap();
    assert_eq!(conds.blocks().len(), 1);
    assert_eq!(conds.blocks().get(0).is_some(), true);
    assert_eq!(
        conds.blocks().get(0),
        Some(&Block::InfoPortion { key: Slice(2, 2), inverted: false })
    );
}

#[test]
fn lib_info_condition_neg() {
    let result = Ast::from("{-xy} X").unwrap();
    let conds = result.statements()[0].conditions().unwrap();
    assert_eq!(conds.blocks().len(), 1);
    assert_eq!(
        conds.blocks().get(0),
        Some(&Block::InfoPortion { key: Slice(2, 2), inverted: true })
    );
}

#[test]
fn lib_probability() {
    let result = Ast::from("{~10} X").unwrap();
    let conds = result.statements()[0].conditions().unwrap();
    assert_eq!(conds.blocks().len(), 1);
    assert_eq!(conds.blocks().get(0), Some(&Block::Chance { val: Slice(2, 2) }));
}

#[test]
fn lib_simple_call() {
    let result = Ast::from("{=f} X").unwrap();
    let conds = result.statements()[0].conditions().unwrap();
    assert_eq!(conds.blocks().len(), 1);
    assert_eq!(
        conds.blocks().get(0),
        Some(&Block::Call { function: Slice(2, 1), args: Vec::new(), inverted: false })
    );
}

#[test]
fn lib_complex() {
    let src = "{=A(a1:a2) !B +C -D ~30} X %=E(e1) +F -G%, Y";
    let result = Ast::from(src).unwrap();

    assert_eq!(result.statements().len(), 2);
    let first = &result.statements()[0];
    assert_eq!(
        first.conditions().unwrap().blocks(),
        vec![
            Block::Call { function: Slice(2, 1), args: vec![Slice(4, 2), Slice(7, 2)], inverted: false },
            Block::Call { function: Slice(12, 1), args: vec![], inverted: true },
            Block::InfoPortion { key: Slice(15, 1), inverted: false },
            Block::InfoPortion { key: Slice(18, 1), inverted: true },
            Block::Chance { val: Slice(21, 2) },
        ]
        .as_slice()
    );
    assert_eq!(
        first.effects().unwrap().blocks(),
        vec![
            Block::Call { function: Slice(29, 1), args: vec![Slice(31, 2)], inverted: false },
            Block::InfoPortion { key: Slice(36, 1), inverted: false },
            Block::InfoPortion { key: Slice(39, 1), inverted: true },
        ]
        .as_slice()
    );
    assert_eq!(first.val(), Some(&Slice(25, 1)));
    let second = &result.statements()[1];
    assert_eq!(second.conditions().is_none(), true);
    assert_eq!(second.effects().is_none(), true);
    assert_eq!(second.val(), Some(&Slice(43, 1)));
}

#[test]
fn parser_simple_value() {
    let result = Ast::from("Y").unwrap();
    assert_eq!(result.statements().len(), 1);
    assert_eq!(result.statements()[0].conditions().is_none(), true);
    assert_eq!(result.statements()[0].val().unwrap(), &Slice(0, 1));
}

#[test]
fn parser_two_values() {
    let result = Ast::from("X, Y").unwrap();
    assert_eq!(result.statements().len(), 2);
    assert_eq!(result.statements()[0].val().unwrap(), &Slice(0, 1));
    assert_eq!(result.statements()[1].val().unwrap(), &Slice(3, 1));
}

#[test]
fn parser_empty_condition() {
    let result = Ast::from("{} X").unwrap();
    assert_eq!(result.statements().len(), 1);
    assert_eq!(result.statements()[0].val().unwrap(), &Slice(3, 1));
    assert_eq!(result.statements()[0].conditions().is_some(), true);
    assert_eq!(result.statements()[0].conditions().unwrap().blocks().len(), 0);
}

#[test]
fn parser_info_condition() {
    let result = Ast::from("{+xy} X").unwrap();
    let conds = result.statements()[0].conditions().unwrap();
    assert_eq!(conds.blocks().len(), 1);
    assert_eq!(conds.blocks().get(0).is_some(), true);
    assert_eq!(
        conds.blocks().get(0),
        Some(&Block::InfoPortion { key: Slice(2, 2), inverted: false })
    );
}

#[test]
fn parser_info_condition_neg() {
    let result = Ast::from("{-xy} X").unwrap();
    let conds = result.statements()[0].conditions().unwrap();
    assert_eq!(conds.blocks().len(), 1);
    assert_eq!(
        conds.blocks().get(0),
        Some(&Block::InfoPortion { key: Slice(2, 2), inverted: true })
    );
}

#[test]
fn parser_probability() {
    let result = Ast::from("{~10} X").unwrap();
    let conds = result.statements()[0].conditions().unwrap();
    assert_eq!(conds.blocks().len(), 1);
    assert_eq!(conds.blocks().get(0), Some(&Block::Chance { val: Slice(2, 2) }));
}

#[test]
fn parser_simple_call() {
    let result = Ast::from("{=f} X").unwrap();
    let conds = result.statements()[0].conditions().unwrap();
    assert_eq!(conds.blocks().len(), 1);
    assert_eq!(
        conds.blocks().get(0),
        Some(&Block::Call { function: Slice(2, 1), args: Vec::new(), inverted: false })
    );
}

#[test]
fn parser_complex() {
    let src = "{=A(a1:a2) !B +C -D ~30} X %=E(e1) +F -G%, Y";
    let result = Ast::from(src).unwrap();

    assert_eq!(result.statements().len(), 2);
    let first = &result.statements()[0];
    assert_eq!(
        first.conditions().unwrap().blocks(),
        vec![
            Block::Call { function: Slice(2, 1), args: vec![Slice(4, 2), Slice(7, 2)], inverted: false },
            Block::Call { function: Slice(12, 1), args: vec![], inverted: true },
            Block::InfoPortion { key: Slice(15, 1), inverted: false },
            Block::InfoPortion { key: Slice(18, 1), inverted: true },
            Block::Chance { val: Slice(21, 2) },
        ]
        .as_slice()
    );
    assert_eq!(
        first.effects().unwrap().blocks(),
        vec![
            Block::Call { function: Slice(29, 1), args: vec![Slice(31, 2)], inverted: false },
            Block::InfoPortion { key: Slice(36, 1), inverted: false },
            Block::InfoPortion { key: Slice(39, 1), inverted: true },
        ]
        .as_slice()
    );
    assert_eq!(first.val(), Some(&Slice(25, 1)));
    let second = &result.statements()[1];
    assert_eq!(second.conditions().is_none(), true);
    assert_eq!(second.effects().is_none(), true);
    assert_eq!(second.val(), Some(&Slice(43, 1)));
}

#[test]
fn span_resolution() {
    let src = "{=A(a1:a2) !B +C -D ~30} X %=E(e1) +F -G%, Y";
    let ast = Ast::from(src).unwrap();
    let first = &ast.statements()[0];
    match &first.conditions().unwrap().blocks()[0] {
        Block::Call { function, args, inverted } => {
            assert_eq!(ast.slice_as_str(function), "A");
            assert_eq!(ast.slice_as_str(&args[0]), "a1");
            assert_eq!(ast.slice_as_str(&args[1]), "a2");
            assert_eq!(*inverted, false);
        }
        other => panic!("expected a call block, got {:?}", other),
    }
    match &first.conditions().unwrap().blocks()[4] {
        Block::Chance { val } => assert_eq!(ast.slice_as_str(val), "30"),
        other => panic!("expected a probability block, got {:?}", other),
    }
    assert_eq!(ast.slice_as_str(first.val().unwrap()), "X");
}

#[test]
fn error_triggers() {
    let e = Ast::from("{{").unwrap_err();
    assert_eq!(e.kind, ParseErrorKind::NestedGroup);
    assert_eq!(e.offset, 1);
    assert_eq!(e.found, Some('{'));

    let e = Ast::from("}").unwrap_err();
    assert_eq!(e.kind, ParseErrorKind::UnmatchedClose);
    assert_eq!(e.offset, 0);

    let e = Ast::from("{~a}").unwrap_err();
    assert_eq!(e.kind, ParseErrorKind::InvalidDigit);
    assert_eq!(e.offset, 2);
    assert_eq!(e.found, Some('a'));
}

#[test]
fn error_triggers_blocks_and_calls() {
    let e = Ast::from("{++}").unwrap_err();
    assert_eq!(e.kind, ParseErrorKind::BlockAlreadyOpen);
    assert_eq!(e.offset, 2);

    let e = Ast::from("{%").unwrap_err();
    assert_eq!(e.kind, ParseErrorKind::EffectCloseOnCondition);
    assert_eq!(e.offset, 1);

    let e = Ast::from("+x ").unwrap_err();
    assert_eq!(e.kind, ParseErrorKind::BlockWithoutContext);
    assert_eq!(e.offset, 2);
    assert_eq!(e.found, Some(' '));

    let e = Ast::from("{=f((}").unwrap_err();
    assert_eq!(e.kind, ParseErrorKind::CallAlreadyOpened);
    assert_eq!(e.offset, 4);

    let e = Ast::from("{=f()x}").unwrap_err();
    assert_eq!(e.kind, ParseErrorKind::CallAlreadyClosed);
    assert_eq!(e.offset, 5);
}

#[test]
fn error_at_end_of_input() {
    let e = Ast::from("+x").unwrap_err();
    assert_eq!(e.kind, ParseErrorKind::BlockWithoutContext);
    assert_eq!(e.offset, 2);
    assert_eq!(e.found, None);
}

#[test]
fn tab_separates_blocks() {
    let result = Ast::from("{+a\t+b} X").unwrap();
    let conds = result.statements()[0].conditions().unwrap();
    assert_eq!(
        conds.blocks(),
        vec![
            Block::InfoPortion { key: Slice(2, 1), inverted: false },
            Block::InfoPortion { key: Slice(5, 1), inverted: false },
        ]
        .as_slice()
    );
}

#[test]
fn condition_groups_merge() {
    let result = Ast::from("{+a} {+b} X").unwrap();
    let conds = result.statements()[0].conditions().unwrap();
    assert_eq!(
        conds.blocks(),
        vec![
            Block::InfoPortion { key: Slice(2, 1), inverted: false },
            Block::InfoPortion { key: Slice(7, 1), inverted: false },
        ]
        .as_slice()
    );
}

#[test]
fn empty_effect_group() {
    let result = Ast::from("X %%").unwrap();
    let st = &result.statements()[0];
    assert_eq!(st.effects().is_some(), true);
    assert_eq!(st.effects().unwrap().blocks().len(), 0);
    assert_eq!(st.val(), Some(&Slice(0, 1)));
}

#[test]
fn output_whitespace_quirk() {
    // The output span's start is fixed at the first character while its
    // length only counts non-separator characters, so output text with an
    // inner space resolves to a truncated substring.
    let result = Ast::from("A B").unwrap();
    let st = &result.statements()[0];
    assert_eq!(st.val(), Some(&Slice(0, 2)));
    assert_eq!(result.slice_as_str(st.val().unwrap()), "A ");
}

#[test]
fn chance_span_swallows_group_open() {
    // A condition group opened while a probability block is pending leaves
    // the pending span stretching over the `{` position.
    let result = Ast::from("~1{2}").unwrap();
    let conds = result.statements()[0].conditions().unwrap();
    assert_eq!(conds.blocks(), vec![Block::Chance { val: Slice(1, 2) }].as_slice());
    assert_eq!(result.slice_as_str(&Slice(1, 2)), "1{");
}

use reform::structure::{Element, Module, Statement};

#[test]
fn repeat_blocks_become_jumps() {
    // print; repeat; expand; repeat; print; endrepeat; endrepeat; splitarg f;
    let statements = vec![
        Statement::Print,
        Statement::Repeat(vec![
            Statement::Expand,
            Statement::Repeat(vec![Statement::Print]),
        ]),
        Statement::SplitArg("f".to_string()),
    ];
    let mut output = vec![Statement::Multiply(Element::Var("x".to_string()))];
    Module::to_control_flow_stat(statements, &mut output);
    assert_eq!(
        output,
        vec![
            Statement::Multiply(Element::Var("x".to_string())),
            Statement::Print,
            Statement::PushChange,
            Statement::Expand,
            Statement::PushChange,
            Statement::Print,
            Statement::JumpIfChanged(5),
            Statement::JumpIfChanged(3),
            Statement::SplitArg("f".to_string()),
        ]
    );
}

#[test]
fn statements_without_repeat_blocks_stay() {
    let mut output = vec![];
    Module::to_control_flow_stat(vec![], &mut output);
    assert!(output.is_empty());
    Module::to_control_flow_stat(vec![Statement::Expand, Statement::Print], &mut output);
    assert_eq!(output, vec![Statement::Expand, Statement::Print]);
    Module::to_control_flow_stat(vec![Statement::Repeat(vec![])], &mut output);
    assert_eq!(
        output,
        vec![
            Statement::Expand,
            Statement::Print,
            Statement::PushChange,
            Statement::JumpIfChanged(3),
        ]
    );
}

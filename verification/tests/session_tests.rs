use advanced_calculator::session::{
    after_calculation, wants_to_continue, ExpressionCommand, InputMode, MenuCommand, MenuOperation,
    SessionAction,
};

#[test]
fn input_mode_choice() {
    assert_eq!(InputMode::from_choice("1\n"), Some(InputMode::MenuDriven));
    assert_eq!(InputMode::from_choice("  2  \r\n"), Some(InputMode::Expression));
    assert_eq!(InputMode::from_choice("3\n"), None);
    assert_eq!(InputMode::from_choice("12\n"), None);
    assert_eq!(InputMode::from_choice("\n"), None);
}

#[test]
fn menu_commands() {
    assert_eq!(MenuCommand::parse("q\n"), MenuCommand::Quit);
    assert_eq!(MenuCommand::parse("Q\n"), MenuCommand::Quit);
    assert_eq!(MenuCommand::parse(" w "), MenuCommand::Save);
    assert_eq!(MenuCommand::parse("L\n"), MenuCommand::Load);
    assert_eq!(MenuCommand::parse("h"), MenuCommand::History);
    assert_eq!(MenuCommand::parse("a\n"), MenuCommand::Arithmetic(MenuOperation::Add));
    assert_eq!(MenuCommand::parse("S\n"), MenuCommand::Arithmetic(MenuOperation::Subtract));
    assert_eq!(MenuCommand::parse("m"), MenuCommand::Arithmetic(MenuOperation::Multiply));
    assert_eq!(MenuCommand::parse("D"), MenuCommand::Arithmetic(MenuOperation::Divide));
    assert_eq!(MenuCommand::parse("p\n"), MenuCommand::Arithmetic(MenuOperation::Power));
    assert_eq!(MenuCommand::parse("add\n"), MenuCommand::Invalid);
    assert_eq!(MenuCommand::parse("\n"), MenuCommand::Invalid);
}

#[test]
fn menu_command_from_normalized_is_case_sensitive() {
    assert_eq!(MenuCommand::from_normalized("q"), MenuCommand::Quit);
    assert_eq!(MenuCommand::from_normalized("Q"), MenuCommand::Invalid);
    assert_eq!(MenuCommand::from_normalized(" q"), MenuCommand::Invalid);
}

#[test]
fn menu_operation_names_and_symbols() {
    assert_eq!(MenuOperation::Add.name(), "add");
    assert_eq!(MenuOperation::Subtract.name(), "subtract");
    assert_eq!(MenuOperation::Multiply.name(), "multiply");
    assert_eq!(MenuOperation::Divide.name(), "divide");
    assert_eq!(MenuOperation::Power.name(), "power");
    assert_eq!(MenuOperation::Add.symbol(), '+');
    assert_eq!(MenuOperation::Subtract.symbol(), '-');
    assert_eq!(MenuOperation::Multiply.symbol(), '*');
    assert_eq!(MenuOperation::Divide.symbol(), '/');
    assert_eq!(MenuOperation::Power.symbol(), '^');
}

#[test]
fn expression_commands() {
    assert_eq!(ExpressionCommand::parse("q\n"), ExpressionCommand::Quit);
    assert_eq!(ExpressionCommand::parse("Q\n"), ExpressionCommand::Evaluate);
    assert_eq!(ExpressionCommand::parse(" w\n"), ExpressionCommand::Save);
    assert_eq!(ExpressionCommand::parse("l"), ExpressionCommand::Load);
    assert_eq!(ExpressionCommand::parse("h\r\n"), ExpressionCommand::History);
    assert_eq!(ExpressionCommand::parse("   \n"), ExpressionCommand::Empty);
    assert_eq!(ExpressionCommand::parse("1 + 2\n"), ExpressionCommand::Evaluate);
}

#[test]
fn continue_answers() {
    assert!(wants_to_continue("y\n"));
    assert!(wants_to_continue(" Y \n"));
    assert!(!wants_to_continue("n\n"));
    assert!(!wants_to_continue("yes\n"));
    assert!(!wants_to_continue("\n"));
}

#[test]
fn command_actions() {
    assert_eq!(MenuCommand::Quit.action(), SessionAction::SaveAndExit);
    assert_eq!(MenuCommand::Save.action(), SessionAction::Save);
    assert_eq!(MenuCommand::Load.action(), SessionAction::Load);
    assert_eq!(MenuCommand::History.action(), SessionAction::ShowHistory);
    assert_eq!(MenuCommand::Arithmetic(MenuOperation::Power).action(), SessionAction::Calculate);
    assert_eq!(MenuCommand::Invalid.action(), SessionAction::RejectInput);
    assert_eq!(ExpressionCommand::Quit.action(), SessionAction::SaveAndExit);
    assert_eq!(ExpressionCommand::Save.action(), SessionAction::Save);
    assert_eq!(ExpressionCommand::Load.action(), SessionAction::Load);
    assert_eq!(ExpressionCommand::History.action(), SessionAction::ShowHistory);
    assert_eq!(ExpressionCommand::Empty.action(), SessionAction::RejectInput);
    assert_eq!(ExpressionCommand::Evaluate.action(), SessionAction::Calculate);
}

#[test]
fn after_calculation_saves_and_exits_unless_yes() {
    assert_eq!(after_calculation("y\n"), SessionAction::Continue);
    assert_eq!(after_calculation(" Y\n"), SessionAction::Continue);
    assert_eq!(after_calculation("n\n"), SessionAction::SaveAndExit);
    assert_eq!(after_calculation("\n"), SessionAction::SaveAndExit);
    assert_eq!(after_calculation("yes\n"), SessionAction::SaveAndExit);
}

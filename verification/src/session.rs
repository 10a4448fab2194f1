//! The decisions of the interactive calculator: which input mode was
//! chosen, which command a line asks for, and whether to go on.

use vstd::prelude::*;
use crate::text::{trim, trimmed, is_single_char};

verus! {

/// The two ways of entering calculations.
#[derive(Clone, Copy, Debug, PartialEq, Eq, Structural)]
pub enum InputMode {
    MenuDriven,
    Expression,
}

/// The lowercase form of `s`, as `str::to_lowercase` maps it.
pub uninterp spec fn lowercase(s: Seq<char>) -> Seq<char>;

/// Calls `str::to_lowercase`; the result is named by `lowercase`.
#[verifier::external_body]
fn to_lowercase(s: &str) -> (r: String)
    ensures
        r@ == lowercase(s@),
{
    s.to_lowercase()
}

impl InputMode {
    pub open spec fn spec_from_choice(s: Seq<char>) -> Option<InputMode> {
        if trimmed(s) == seq!['1'] {
            Some(InputMode::MenuDriven)
        } else if trimmed(s) == seq!['2'] {
            Some(InputMode::Expression)
        } else {
            None
        }
    }

    /// The mode chosen by an input line: `1` for menu-driven, `2` for
    /// expression input, surrounding whitespace ignored.
    pub fn from_choice(line: &str) -> (m: Option<InputMode>)
        ensures
            m == Self::spec_from_choice(line@),
    {
        let t = trim(line);
        if is_single_char(t.as_str(), '1') {
            Some(InputMode::MenuDriven)
        } else if is_single_char(t.as_str(), '2') {
            Some(InputMode::Expression)
        } else {
            None
        }
    }
}

/// The arithmetic operations of the menu.
#[derive(Clone, Copy, Debug, PartialEq, Eq, Structural)]
pub enum MenuOperation {
    Add,
    Subtract,
    Multiply,
    Divide,
    Power,
}

/// What a line typed at the menu asks for.
#[derive(Clone, Copy, Debug, PartialEq, Eq, Structural)]
pub enum MenuCommand {
    Quit,
    Save,
    Load,
    History,
    Arithmetic(MenuOperation),
    Invalid,
}

/// What a line typed in expression mode asks for.
#[derive(Clone, Copy, Debug, PartialEq, Eq, Structural)]
pub enum ExpressionCommand {
    Quit,
    Save,
    Load,
    History,
    /// Nothing but whitespace was typed.
    Empty,
    /// The trimmed line is an expression to evaluate.
    Evaluate,
}

impl MenuCommand {
    pub open spec fn spec_from_normalized(s: Seq<char>) -> MenuCommand {
        if s == seq!['q'] {
            MenuCommand::Quit
        } else if s == seq!['w'] {
            MenuCommand::Save
        } else if s == seq!['l'] {
            MenuCommand::Load
        } else if s == seq!['h'] {
            MenuCommand::History
        } else if s == seq!['a'] {
            MenuCommand::Arithmetic(MenuOperation::Add)
        } else if s == seq!['s'] {
            MenuCommand::Arithmetic(MenuOperation::Subtract)
        } else if s == seq!['m'] {
            MenuCommand::Arithmetic(MenuOperation::Multiply)
        } else if s == seq!['d'] {
            MenuCommand::Arithmetic(MenuOperation::Divide)
        } else if s == seq!['p'] {
            MenuCommand::Arithmetic(MenuOperation::Power)
        } else {
            MenuCommand::Invalid
        }
    }

    /// The command named by an already trimmed, lowercase line.
    pub fn from_normalized(s: &str) -> (c: MenuCommand)
        ensures
            c == Self::spec_from_normalized(s@),
    {
        if is_single_char(s, 'q') {
            MenuCommand::Quit
        } else if is_single_char(s, 'w') {
            MenuCommand::Save
        } else if is_single_char(s, 'l') {
            MenuCommand::Load
        } else if is_single_char(s, 'h') {
            MenuCommand::History
        } else if is_single_char(s, 'a') {
            MenuCommand::Arithmetic(MenuOperation::Add)
        } else if is_single_char(s, 's') {
            MenuCommand::Arithmetic(MenuOperation::Subtract)
        } else if is_single_char(s, 'm') {
            MenuCommand::Arithmetic(MenuOperation::Multiply)
        } else if is_single_char(s, 'd') {
            MenuCommand::Arithmetic(MenuOperation::Divide)
        } else if is_single_char(s, 'p') {
            MenuCommand::Arithmetic(MenuOperation::Power)
        } else {
            MenuCommand::Invalid
        }
    }

    /// The command a menu line asks for: the line is trimmed and
    /// lowercased, then `q w l h` quit, save, load and show the history,
    /// and `a s m d p` choose an operation.
    pub fn parse(line: &str) -> (c: MenuCommand)
        ensures
            c == Self::spec_from_normalized(lowercase(trimmed(line@))),
    {
        let t = trim(line);
        let l = to_lowercase(t.as_str());
        MenuCommand::from_normalized(l.as_str())
    }
}

impl ExpressionCommand {
    pub open spec fn spec_parse(line: Seq<char>) -> ExpressionCommand {
        let t = trimmed(line);
        if t == seq!['q'] {
            ExpressionCommand::Quit
        } else if t == seq!['w'] {
            ExpressionCommand::Save
        } else if t == seq!['l'] {
            ExpressionCommand::Load
        } else if t == seq!['h'] {
            ExpressionCommand::History
        } else if t.len() == 0 {
            ExpressionCommand::Empty
        } else {
            ExpressionCommand::Evaluate
        }
    }

    /// The command a line typed in expression mode asks for; the line is
    /// trimmed, and `q w l h` are the commands.
    pub fn parse(line: &str) -> (c: ExpressionCommand)
        ensures
            c == Self::spec_parse(line@),
    {
        let t = trim(line);
        let s = t.as_str();
        if is_single_char(s, 'q') {
            ExpressionCommand::Quit
        } else if is_single_char(s, 'w') {
            ExpressionCommand::Save
        } else if is_single_char(s, 'l') {
            ExpressionCommand::Load
        } else if is_single_char(s, 'h') {
            ExpressionCommand::History
        } else if s.is_empty() {
            ExpressionCommand::Empty
        } else {
            ExpressionCommand::Evaluate
        }
    }
}

impl MenuOperation {
    pub open spec fn spec_name(self) -> Seq<char> {
        match self {
            MenuOperation::Add => "add"@,
            MenuOperation::Subtract => "subtract"@,
            MenuOperation::Multiply => "multiply"@,
            MenuOperation::Divide => "divide"@,
            MenuOperation::Power => "power"@,
        }
    }

    pub open spec fn spec_symbol(self) -> char {
        match self {
            MenuOperation::Add => '+',
            MenuOperation::Subtract => '-',
            MenuOperation::Multiply => '*',
            MenuOperation::Divide => '/',
            MenuOperation::Power => '^',
        }
    }

    /// The operation's name as the history records it.
    pub fn name(&self) -> (s: String)
        ensures
            s@ == self.spec_name(),
    {
        match self {
            MenuOperation::Add => String::from_str("add"),
            MenuOperation::Subtract => String::from_str("subtract"),
            MenuOperation::Multiply => String::from_str("multiply"),
            MenuOperation::Divide => String::from_str("divide"),
            MenuOperation::Power => String::from_str("power"),
        }
    }

    /// The symbol written between the operands in the history.
    pub fn symbol(&self) -> (c: char)
        ensures
            c == self.spec_symbol(),
    {
        match self {
            MenuOperation::Add => '+',
            MenuOperation::Subtract => '-',
            MenuOperation::Multiply => '*',
            MenuOperation::Divide => '/',
            MenuOperation::Power => '^',
        }
    }
}

/// The answer to "continue?" means yes: the trimmed, lowercased line is
/// `y`.
pub open spec fn spec_wants_to_continue(line: Seq<char>) -> bool {
    lowercase(trimmed(line)) == seq!['y']
}

/// Whether an answer to "Do you want to continue? (y/n)" means yes.
pub fn wants_to_continue(line: &str) -> (b: bool)
    ensures
        b == spec_wants_to_continue(line@),
{
    let t = trim(line);
    let l = to_lowercase(t.as_str());
    is_single_char(l.as_str(), 'y')
}

/// What the session does next.
#[derive(Clone, Copy, Debug, PartialEq, Eq, Structural)]
pub enum SessionAction {
    /// Save the history and leave the session.
    SaveAndExit,
    /// Save the history and ask again.
    Save,
    /// Load the saved history and ask again.
    Load,
    /// Show the history and ask again.
    ShowHistory,
    /// Carry out the calculation asked for.
    Calculate,
    /// Tell the user the input is not valid and ask again.
    RejectInput,
    /// Ask for the next calculation.
    Continue,
}

impl MenuCommand {
    pub open spec fn spec_action(self) -> SessionAction {
        match self {
            MenuCommand::Quit => SessionAction::SaveAndExit,
            MenuCommand::Save => SessionAction::Save,
            MenuCommand::Load => SessionAction::Load,
            MenuCommand::History => SessionAction::ShowHistory,
            MenuCommand::Arithmetic(_) => SessionAction::Calculate,
            MenuCommand::Invalid => SessionAction::RejectInput,
        }
    }

    /// What the session does for this menu command.
    pub fn action(&self) -> (a: SessionAction)
        ensures
            a == self.spec_action(),
    {
        match self {
            MenuCommand::Quit => SessionAction::SaveAndExit,
            MenuCommand::Save => SessionAction::Save,
            MenuCommand::Load => SessionAction::Load,
            MenuCommand::History => SessionAction::ShowHistory,
            MenuCommand::Arithmetic(_) => SessionAction::Calculate,
            MenuCommand::Invalid => SessionAction::RejectInput,
        }
    }
}

impl ExpressionCommand {
    pub open spec fn spec_action(self) -> SessionAction {
        match self {
            ExpressionCommand::Quit => SessionAction::SaveAndExit,
            ExpressionCommand::Save => SessionAction::Save,
            ExpressionCommand::Load => SessionAction::Load,
            ExpressionCommand::History => SessionAction::ShowHistory,
            ExpressionCommand::Empty => SessionAction::RejectInput,
            ExpressionCommand::Evaluate => SessionAction::Calculate,
        }
    }

    /// What the session does for this expression-mode command.
    pub fn action(&self) -> (a: SessionAction)
        ensures
            a == self.spec_action(),
    {
        match self {
            ExpressionCommand::Quit => SessionAction::SaveAndExit,
            ExpressionCommand::Save => SessionAction::Save,
            ExpressionCommand::Load => SessionAction::Load,
            ExpressionCommand::History => SessionAction::ShowHistory,
            ExpressionCommand::Empty => SessionAction::RejectInput,
            ExpressionCommand::Evaluate => SessionAction::Calculate,
        }
    }
}

/// What follows a calculation, given the answer to "continue?": any answer
/// other than `y` saves the history and ends the session.
pub fn after_calculation(answer: &str) -> (a: SessionAction)
    ensures
        a == (if spec_wants_to_continue(answer@) {
            SessionAction::Continue
        } else {
            SessionAction::SaveAndExit
        }),
{
    if wants_to_continue(answer) {
        SessionAction::Continue
    } else {
        SessionAction::SaveAndExit
    }
}

/// How an expression-mode line is read: surrounding whitespace is ignored;
/// an empty line is rejected; exactly `q`, `w`, `l` or `h` is a command;
/// every other line, whatever its first character, is an expression to
/// evaluate.
pub proof fn law_expression_lines(line: Seq<char>)
    ensures
        trimmed(line).len() == 0 ==> ExpressionCommand::spec_parse(line) == ExpressionCommand::Empty,
        trimmed(line) == seq!['q'] ==> ExpressionCommand::spec_parse(line) == ExpressionCommand::Quit,
        trimmed(line) == seq!['w'] ==> ExpressionCommand::spec_parse(line) == ExpressionCommand::Save,
        trimmed(line) == seq!['l'] ==> ExpressionCommand::spec_parse(line) == ExpressionCommand::Load,
        trimmed(line) == seq!['h'] ==> ExpressionCommand::spec_parse(line)
            == ExpressionCommand::History,
        (trimmed(line).len() > 0 && trimmed(line) != seq!['q'] && trimmed(line) != seq!['w']
            && trimmed(line) != seq!['l'] && trimmed(line) != seq!['h'])
            ==> ExpressionCommand::spec_parse(line) == ExpressionCommand::Evaluate,
{
    assert(seq!['q'][0] == 'q' && seq!['w'][0] == 'w' && seq!['l'][0] == 'l' && seq!['h'][0] == 'h');
    assert(seq!['q'].len() == 1 && seq!['w'].len() == 1 && seq!['l'].len() == 1);
}

/// The answer to "continue?" means yes exactly when its trimmed,
/// lowercased text is the single character `y`; any other answer, such as
/// `q`, `x` or `no`, means no and ends the session with a save.
pub proof fn law_continue_answer(line: Seq<char>)
    ensures
        spec_wants_to_continue(line) <==> lowercase(trimmed(line)) == seq!['y'],
        lowercase(trimmed(line)) != seq!['y'] ==> !spec_wants_to_continue(line),
{
}

} // verus!

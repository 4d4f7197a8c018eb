//! Value locations.
//!
//! The register allocator assigns every SSA value to either a register or a
//! stack slot. This assignment is represented by a `ValueLoc` object.

use crate::ir::entities::StackSlot;
use vstd::prelude::*;
use vstd::string::StringExecFns;

verus! {

/// A register unit: the number of a register of the target.
pub type RegUnit = u16;

/// The decimal digit `d` as a character.
pub open spec fn digit_char(d: nat) -> char {
    if d == 0 {
        '0'
    } else if d == 1 {
        '1'
    } else if d == 2 {
        '2'
    } else if d == 3 {
        '3'
    } else if d == 4 {
        '4'
    } else if d == 5 {
        '5'
    } else if d == 6 {
        '6'
    } else if d == 7 {
        '7'
    } else if d == 8 {
        '8'
    } else {
        '9'
    }
}

/// The decimal digits of `n`, most significant first, without leading zeros.
pub open spec fn decimal(n: nat) -> Seq<char>
    decreases n,
{
    if n < 10 {
        seq![digit_char(n)]
    } else {
        decimal(n / 10).push(digit_char(n % 10))
    }
}

/// The decimal digit `d` as a string.
fn digit_text(d: u32) -> (text: &'static str)
    requires
        d < 10,
    ensures
        text@ == seq![digit_char(d as nat)],
{
    proof {
        reveal_strlit("0");
        reveal_strlit("1");
        reveal_strlit("2");
        reveal_strlit("3");
        reveal_strlit("4");
        reveal_strlit("5");
        reveal_strlit("6");
        reveal_strlit("7");
        reveal_strlit("8");
        reveal_strlit("9");
    }
    let text = if d == 0 {
        "0"
    } else if d == 1 {
        "1"
    } else if d == 2 {
        "2"
    } else if d == 3 {
        "3"
    } else if d == 4 {
        "4"
    } else if d == 5 {
        "5"
    } else if d == 6 {
        "6"
    } else if d == 7 {
        "7"
    } else if d == 8 {
        "8"
    } else {
        "9"
    };
    assert(text@ =~= seq![digit_char(d as nat)]);
    text
}

/// Append the decimal digits of `n` to `text`.
fn append_decimal(text: &mut String, n: u32)
    ensures
        final(text)@ == old(text)@ + decimal(n as nat),
    decreases n,
{
    if n >= 10 {
        append_decimal(text, n / 10);
    }
    text.append(digit_text(n % 10));
    assert(text@ =~= old(text)@ + decimal(n as nat));
}

/// Value location.
#[derive(Copy, Clone, Debug, PartialEq, Eq, Structural)]
pub enum ValueLoc {
    /// This value has not been assigned to a location yet.
    Unassigned,
    /// Value is assigned to a register.
    Reg(RegUnit),
    /// Value is assigned to a stack slot.
    Stack(StackSlot),
}

impl Default for ValueLoc {
    /// The location of a value that has none yet.
    fn default() -> (loc: ValueLoc)
        ensures
            loc == ValueLoc::Unassigned,
    {
        ValueLoc::Unassigned
    }
}

impl ValueLoc {
    /// Get the register unit of this location, which is a register.
    pub fn unwrap_reg(self) -> (ru: RegUnit)
        requires
            self is Reg,
        ensures
            self == ValueLoc::Reg(ru),
    {
        match self {
            ValueLoc::Reg(ru) => ru,
            _ => vstd::pervasive::unreached(),
        }
    }

    /// Return an object that can display this value location. `reg_name` is
    /// the name that the register info of the target gives to the register
    /// unit of this location; without it, a register unit is shown as a
    /// number.
    pub fn display(self, reg_name: Option<String>) -> (d: DisplayValueLoc)
        ensures
            d.loc == self,
            d.reg_name == reg_name,
    {
        DisplayValueLoc { loc: self, reg_name }
    }
}

/// Displaying a `ValueLoc` correctly requires the name of its register unit
/// from the target. Without the name, register units are simply shown as
/// numbers.
///
/// The `DisplayValueLoc` type can display the contained `ValueLoc`.
pub struct DisplayValueLoc {
    pub loc: ValueLoc,
    pub reg_name: Option<String>,
}

impl DisplayValueLoc {
    /// The text that shows the location: `-` for no location, the name of a
    /// register or `%` and the number of its unit, `ss` and the number of a
    /// stack slot.
    pub open spec fn text(&self) -> Seq<char> {
        match self.loc {
            ValueLoc::Unassigned => seq!['-'],
            ValueLoc::Reg(ru) => match self.reg_name {
                Some(name) => name@,
                None => seq!['%'] + decimal(ru as nat),
            },
            ValueLoc::Stack(ss) => seq!['s', 's'] + decimal(ss.0 as nat),
        }
    }

    /// The text that shows the location.
    pub fn to_text(&self) -> (text: String)
        ensures
            text@ == self.text(),
    {
        proof {
            reveal_strlit("-");
            reveal_strlit("%");
            reveal_strlit("ss");
        }
        match self.loc {
            ValueLoc::Unassigned => {
                let text = String::from_str("-");
                assert(text@ =~= seq!['-']);
                text
            },
            ValueLoc::Reg(ru) => {
                match &self.reg_name {
                    Some(name) => name.clone(),
                    None => {
                        let mut text = String::from_str("%");
                        append_decimal(&mut text, ru as u32);
                        assert(text@ =~= seq!['%'] + decimal(ru as nat));
                        text
                    },
                }
            },
            ValueLoc::Stack(ss) => {
                let mut text = String::from_str("ss");
                append_decimal(&mut text, ss.0);
                assert(text@ =~= seq!['s', 's'] + decimal(ss.0 as nat));
                text
            },
        }
    }
}

/// Function argument location.
///
/// The ABI specifies how arguments are passed to a function, and where
/// return values appear after the call. Just like a `ValueLoc`, function
/// arguments can be passed in registers or on the stack.
///
/// Function arguments on the stack are accessed differently for the incoming
/// arguments to the current function and the outgoing arguments to a called
/// external function. For this reason, the location of stack arguments is
/// described as an offset into the array of function arguments on the stack.
///
/// An `ArgumentLoc` can be translated to a `ValueLoc` only when we know if
/// we're talking about an incoming argument or an outgoing argument.
#[derive(Copy, Clone, Debug, PartialEq, Eq, Structural)]
pub enum ArgumentLoc {
    /// This argument has not been assigned to a location yet.
    Unassigned,
    /// Argument is passed in a register.
    Reg(RegUnit),
    /// Argument is passed on the stack, at the given byte offset into the
    /// argument array.
    Stack(u32),
}

impl Default for ArgumentLoc {
    /// The location of an argument that has none yet.
    fn default() -> (loc: ArgumentLoc)
        ensures
            loc == ArgumentLoc::Unassigned,
    {
        ArgumentLoc::Unassigned
    }
}

impl ArgumentLoc {
    /// Is this an assigned location? (That is, not `Unassigned`).
    pub fn is_assigned(&self) -> (b: bool)
        ensures
            b == !(*self is Unassigned),
    {
        match self {
            ArgumentLoc::Unassigned => false,
            _ => true,
        }
    }

    /// Return an object that can display this argument location. `reg_name`
    /// is the name that the register info of the target gives to the
    /// register unit of this location; without it, a register unit is shown
    /// as a number.
    pub fn display(self, reg_name: Option<String>) -> (d: DisplayArgumentLoc)
        ensures
            d.loc == self,
            d.reg_name == reg_name,
    {
        DisplayArgumentLoc { loc: self, reg_name }
    }
}

/// Displaying a `ArgumentLoc` correctly requires the name of its register
/// unit from the target. Without the name, register units are simply shown
/// as numbers.
///
/// The `DisplayArgumentLoc` type can display the contained `ArgumentLoc`.
pub struct DisplayArgumentLoc {
    pub loc: ArgumentLoc,
    pub reg_name: Option<String>,
}

impl DisplayArgumentLoc {
    /// The text that shows the location: `-` for no location, the name of a
    /// register or `%` and the number of its unit, the offset of an argument
    /// on the stack.
    pub open spec fn text(&self) -> Seq<char> {
        match self.loc {
            ArgumentLoc::Unassigned => seq!['-'],
            ArgumentLoc::Reg(ru) => match self.reg_name {
                Some(name) => name@,
                None => seq!['%'] + decimal(ru as nat),
            },
            ArgumentLoc::Stack(offset) => decimal(offset as nat),
        }
    }

    /// The text that shows the location.
    pub fn to_text(&self) -> (text: String)
        ensures
            text@ == self.text(),
    {
        proof {
            reveal_strlit("-");
            reveal_strlit("%");
        }
        match self.loc {
            ArgumentLoc::Unassigned => {
                let text = String::from_str("-");
                assert(text@ =~= seq!['-']);
                text
            },
            ArgumentLoc::Reg(ru) => {
                match &self.reg_name {
                    Some(name) => name.clone(),
                    None => {
                        let mut text = String::from_str("%");
                        append_decimal(&mut text, ru as u32);
                        assert(text@ =~= seq!['%'] + decimal(ru as nat));
                        text
                    },
                }
            },
            ArgumentLoc::Stack(offset) => {
                let mut text = String::new();
                append_decimal(&mut text, offset);
                assert(text@ =~= decimal(offset as nat));
                text
            },
        }
    }
}

} // verus!

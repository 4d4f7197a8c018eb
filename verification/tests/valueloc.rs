use cretonne::ir::entities::StackSlot;
use cretonne::ir::valueloc::{ArgumentLoc, ValueLoc};

#[test]
fn value_locations_default_to_unassigned() {
    assert_eq!(ValueLoc::default(), ValueLoc::Unassigned);
    assert_eq!(ArgumentLoc::default(), ArgumentLoc::Unassigned);
}

#[test]
fn unwrap_reg_gives_the_register_unit() {
    assert_eq!(ValueLoc::Reg(0).unwrap_reg(), 0);
    assert_eq!(ValueLoc::Reg(17).unwrap_reg(), 17);
    assert_eq!(ValueLoc::Reg(u16::MAX).unwrap_reg(), 65535);
}

#[test]
fn argument_locations_know_whether_they_are_assigned() {
    assert!(!ArgumentLoc::Unassigned.is_assigned());
    assert!(ArgumentLoc::Reg(3).is_assigned());
    assert!(ArgumentLoc::Stack(0).is_assigned());
}

#[test]
fn value_locations_are_shown_without_register_names() {
    assert_eq!(ValueLoc::Unassigned.display(None).to_text(), "-");
    assert_eq!(ValueLoc::Reg(0).display(None).to_text(), "%0");
    assert_eq!(ValueLoc::Reg(7).display(None).to_text(), "%7");
    assert_eq!(ValueLoc::Reg(10).display(None).to_text(), "%10");
    assert_eq!(ValueLoc::Reg(65535).display(None).to_text(), "%65535");
    assert_eq!(ValueLoc::Stack(StackSlot::new(0)).display(None).to_text(), "ss0");
    assert_eq!(ValueLoc::Stack(StackSlot::new(109)).display(None).to_text(), "ss109");
    assert_eq!(
        ValueLoc::Stack(StackSlot::new(u32::MAX)).display(None).to_text(),
        "ss4294967295"
    );
}

#[test]
fn value_locations_are_shown_with_register_names() {
    let name = || Some(String::from("%rax"));
    assert_eq!(ValueLoc::Reg(0).display(name()).to_text(), "%rax");
    // A name is only used for a register.
    assert_eq!(ValueLoc::Unassigned.display(name()).to_text(), "-");
    assert_eq!(ValueLoc::Stack(StackSlot::new(3)).display(name()).to_text(), "ss3");
}

#[test]
fn argument_locations_are_shown() {
    assert_eq!(ArgumentLoc::Unassigned.display(None).to_text(), "-");
    assert_eq!(ArgumentLoc::Reg(12).display(None).to_text(), "%12");
    assert_eq!(ArgumentLoc::Reg(12).display(Some(String::from("%x12"))).to_text(), "%x12");
    assert_eq!(ArgumentLoc::Stack(0).display(None).to_text(), "0");
    assert_eq!(ArgumentLoc::Stack(24).display(None).to_text(), "24");
    assert_eq!(ArgumentLoc::Stack(1000).display(Some(String::from("%r0"))).to_text(), "1000");
    assert_eq!(ArgumentLoc::Stack(u32::MAX).display(None).to_text(), "4294967295");
}

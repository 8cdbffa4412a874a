//! The three states of a selection checkbox in an account tree.
use vstd::prelude::*;

verus! {

/// The state of a checkbox.
#[derive(Debug, Clone, Copy, PartialEq, Eq)]
pub enum CheckboxState {
    Unchecked,
    /// Some, but not all, of what the checkbox stands for is selected.
    Indeterminate,
    Checked,
}

impl CheckboxState {
    pub fn is_checked(&self) -> (r: bool)
        ensures
            r == (*self == CheckboxState::Checked),
    {
        matches!(self, CheckboxState::Checked)
    }

    pub fn is_indeterminate(&self) -> (r: bool)
        ensures
            r == (*self == CheckboxState::Indeterminate),
    {
        matches!(self, CheckboxState::Indeterminate)
    }

    pub fn is_unchecked(&self) -> (r: bool)
        ensures
            r == (*self == CheckboxState::Unchecked),
    {
        matches!(self, CheckboxState::Unchecked)
    }
}

impl Default for CheckboxState {
    fn default() -> (r: Self)
        ensures
            r == CheckboxState::Unchecked,
    {
        CheckboxState::Unchecked
    }
}

impl From<bool> for CheckboxState {
    fn from(checked: bool) -> (r: Self) {
        if checked {
            CheckboxState::Checked
        } else {
            CheckboxState::Unchecked
        }
    }
}

impl vstd::std_specs::convert::FromSpecImpl<bool> for CheckboxState {
    open spec fn obeys_from_spec() -> bool {
        true
    }

    open spec fn from_spec(checked: bool) -> CheckboxState {
        if checked {
            CheckboxState::Checked
        } else {
            CheckboxState::Unchecked
        }
    }
}

} // verus!

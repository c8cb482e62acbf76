//! Conversion from plain text, and `+` for joining plain and rich strings.

use crate::model::uniform;
use crate::string::RichString;
use crate::style::Style;
use std::ops::Add;
use vstd::prelude::*;
use vstd::std_specs::convert::FromSpecImpl;
use vstd::std_specs::ops::AddSpecImpl;

verus! {

impl<'a> FromSpecImpl<&'a str> for RichString {
    /// Nothing is promised of the conversion in contracts: verified code
    /// calls [`RichString::from`] with [`Style::plain`], which is what the
    /// conversion does.
    open spec fn obeys_from_spec() -> bool {
        false
    }

    open spec fn from_spec(value: &'a str) -> RichString {
        arbitrary()
    }
}

impl<'a> From<&'a str> for RichString {
    /// The text without style.
    fn from(value: &'a str) -> RichString {
        RichString::from(value, Style::plain())
    }
}

impl AddSpecImpl<RichString> for RichString {
    /// What is known of a sum is the contract of `add`.
    open spec fn obeys_add_spec() -> bool {
        false
    }

    open spec fn add_req(self, rhs: RichString) -> bool {
        self.wf() && rhs.wf()
    }

    open spec fn add_spec(self, rhs: RichString) -> RichString {
        arbitrary()
    }
}

impl Add<RichString> for RichString {
    type Output = RichString;

    /// `left + right` is `left` with `right` appended.
    fn add(self, rhs: RichString) -> (sum: RichString)
        ensures
            sum.wf(),
            sum@ == self@ + rhs@,
    {
        let mut sum = self;
        sum.push(&rhs);
        sum
    }
}

impl<'a> AddSpecImpl<&'a str> for RichString {
    /// What is known of a sum is the contract of `add`.
    open spec fn obeys_add_spec() -> bool {
        false
    }

    open spec fn add_req(self, rhs: &'a str) -> bool {
        self.wf()
    }

    open spec fn add_spec(self, rhs: &'a str) -> RichString {
        arbitrary()
    }
}

impl<'a> Add<&'a str> for RichString {
    type Output = RichString;

    /// `left + text` is `left` with the plain text appended.
    fn add(self, rhs: &'a str) -> (sum: RichString)
        ensures
            sum.wf(),
            sum@ == self@ + uniform(rhs@, Style::plain()),
    {
        let mut sum = self;
        sum.push_plain(rhs);
        sum
    }
}

impl<'a> AddSpecImpl<RichString> for &'a str {
    /// What is known of a sum is the contract of `add`.
    open spec fn obeys_add_spec() -> bool {
        false
    }

    open spec fn add_req(self, rhs: RichString) -> bool {
        rhs.wf()
    }

    open spec fn add_spec(self, rhs: RichString) -> RichString {
        arbitrary()
    }
}

impl<'a> Add<RichString> for &'a str {
    type Output = RichString;

    /// `text + right` is `right` with the plain text put in front.
    fn add(self, rhs: RichString) -> (sum: RichString)
        ensures
            sum.wf(),
            sum@ == uniform(self@, Style::plain()) + rhs@,
    {
        let mut sum = RichString::from(self, Style::plain());
        sum.push(&rhs);
        sum
    }
}

} // verus!

//! Classes of urgency for buffers by how full they are.
use vstd::prelude::*;

verus! {

/// How urgently a buffer needs keys, the most urgent first.
#[derive(Debug, Clone, Copy, PartialEq, Eq, Hash, Structural)]
pub enum BufferQos {
    Priority,
    Important,
    Quickly,
    Relax,
    BestEffort,
    Saturated,
}

impl BufferQos {
    pub open spec fn name(self) -> Seq<char> {
        match self {
            BufferQos::Priority => "priority"@,
            BufferQos::Important => "important"@,
            BufferQos::Quickly => "quickly"@,
            BufferQos::Relax => "relax"@,
            BufferQos::BestEffort => "best_effort"@,
            BufferQos::Saturated => "saturated"@,
        }
    }

    pub fn as_str(self) -> (r: &'static str)
        ensures
            r@ == self.name(),
    {
        match self {
            BufferQos::Priority => "priority",
            BufferQos::Important => "important",
            BufferQos::Quickly => "quickly",
            BufferQos::Relax => "relax",
            BufferQos::BestEffort => "best_effort",
            BufferQos::Saturated => "saturated",
        }
    }

    /// One for the most urgent class, six for the one that needs nothing.
    pub open spec fn order(self) -> u8 {
        match self {
            BufferQos::Priority => 1,
            BufferQos::Important => 2,
            BufferQos::Quickly => 3,
            BufferQos::Relax => 4,
            BufferQos::BestEffort => 5,
            BufferQos::Saturated => 6,
        }
    }

    pub fn rank(self) -> (r: u8)
        ensures
            r == self.order(),
    {
        match self {
            BufferQos::Priority => 1,
            BufferQos::Important => 2,
            BufferQos::Quickly => 3,
            BufferQos::Relax => 4,
            BufferQos::BestEffort => 5,
            BufferQos::Saturated => 6,
        }
    }

    /// The step from which on a buffer of this class, once in it, stays in it.
    pub open spec fn exit(self) -> u8 {
        match self {
            BufferQos::Priority => 0,
            BufferQos::Important => 1,
            BufferQos::Quickly => 3,
            BufferQos::Relax => 5,
            BufferQos::BestEffort => 7,
            BufferQos::Saturated => 9,
        }
    }
}

/// Number of marks on the scale of [`classify`].
pub const FILL_STEPS: u8 = 10;

/// The class of a buffer of which nothing was known.
pub open spec fn fresh_class(step: u8) -> BufferQos {
    if step >= 10 {
        BufferQos::Saturated
    } else if step >= 8 {
        BufferQos::BestEffort
    } else if step >= 6 {
        BufferQos::Relax
    } else if step >= 4 {
        BufferQos::Quickly
    } else if step >= 2 {
        BufferQos::Important
    } else {
        BufferQos::Priority
    }
}

/// A buffer that fills goes to the class of its level at once; one that empties
/// stays in its class until it has fallen clearly below where the class begins.
pub open spec fn class_after(step: u8, prev: Option<BufferQos>) -> BufferQos {
    match prev {
        None => fresh_class(step),
        Some(p) => if p.order() > fresh_class(step).order() && step >= p.exit() {
            p
        } else {
            fresh_class(step)
        },
    }
}

/// The class of a buffer, given how many marks of a scale its level has passed and
/// the class that it was in. The marks are, in ascending order, where a class is
/// left and where it is entered: above 5 %, from 10 %, above 25 %, from 30 %, above
/// 45 %, from 50 %, above 65 %, from 70 %, above 85 % and from 95 % on.
pub fn classify(step: u8, prev: Option<BufferQos>) -> (r: BufferQos)
    requires
        step <= FILL_STEPS,
    ensures
        r == class_after(step, prev),
{
    let ideal = if step >= 10 {
        BufferQos::Saturated
    } else if step >= 8 {
        BufferQos::BestEffort
    } else if step >= 6 {
        BufferQos::Relax
    } else if step >= 4 {
        BufferQos::Quickly
    } else if step >= 2 {
        BufferQos::Important
    } else {
        BufferQos::Priority
    };
    let prev = match prev {
        Some(p) => p,
        None => {
            return ideal;
        },
    };
    if prev.rank() <= ideal.rank() {
        return ideal;
    }
    let exit: u8 = match prev {
        BufferQos::Priority => 0,
        BufferQos::Important => 1,
        BufferQos::Quickly => 3,
        BufferQos::Relax => 5,
        BufferQos::BestEffort => 7,
        BufferQos::Saturated => 9,
    };
    if step >= exit {
        prev
    } else {
        ideal
    }
}

/// A buffer whose level does not change stays in its class.
pub proof fn class_is_stable(step: u8, prev: Option<BufferQos>)
    ensures
        class_after(step, Some(class_after(step, prev))) == class_after(step, prev),
{
}

/// A fuller buffer is never more urgent than an emptier one that was in the same
/// class.
pub proof fn fuller_is_not_more_urgent(a: u8, b: u8, prev: Option<BufferQos>)
    requires
        a <= b,
    ensures
        class_after(a, prev).order() <= class_after(b, prev).order(),
{
}

/// A level between two neighbouring marks never makes a buffer change its class
/// back and forth: after a drop by one mark below where a class begins it is still
/// in that class.
pub proof fn small_drops_change_nothing(step: u8, prev: Option<BufferQos>)
    requires
        2 <= step <= FILL_STEPS,
        step % 2 == 0,
    ensures
        class_after((step - 1) as u8, Some(class_after(step, prev))) == class_after(step, prev),
{
}

/// Every second mark begins a class, and a class is left only below the last mark
/// before the one that it began at.
pub proof fn classes_are_two_marks_apart(step: u8, prev: BufferQos)
    requires
        step <= FILL_STEPS,
    ensures
        class_after(step, None).order() == step / 2 + 1,
        class_after(step, Some(prev)).order() == (if prev.order() > step / 2 + 1 && step + 3 >= 2
            * prev.order() {
            prev.order() as int
        } else {
            step / 2 + 1
        }),
{
}

} // verus!

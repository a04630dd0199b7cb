//! The Review screen's presentation rules: the four grade buttons and the
//! session status strip (`N left` · progress · `i/total`).
use crate::scheduler;
use vstd::prelude::*;
use vstd::string::StringExecFns;

verus! {

/// The four self-grades in button order. A presentation-local enum (labels
/// and colours); `From` maps it to the scheduler's [`scheduler::Grade`].
#[derive(Debug, Clone, Copy, PartialEq, Eq, Structural)]
pub enum Grade {
    Again,
    Hard,
    Good,
    Easy,
}

pub open spec fn spec_label(g: Grade) -> Seq<char> {
    match g {
        Grade::Again => "Again"@,
        Grade::Hard => "Hard"@,
        Grade::Good => "Good"@,
        Grade::Easy => "Easy"@,
    }
}

pub open spec fn spec_bg(g: Grade) -> Seq<char> {
    match g {
        Grade::Again => "bg-again"@,
        Grade::Hard => "bg-hard"@,
        Grade::Good => "bg-good"@,
        Grade::Easy => "bg-easy"@,
    }
}

impl Grade {
    /// The four grades top-to-bottom in the stacked button column.
    pub fn all() -> (a: [Grade; 4])
        ensures
            a@ == seq![Grade::Again, Grade::Hard, Grade::Good, Grade::Easy],
    {
        let a = [Grade::Again, Grade::Hard, Grade::Good, Grade::Easy];
        assert(a@ =~= seq![Grade::Again, Grade::Hard, Grade::Good, Grade::Easy]);
        a
    }

    /// The button label.
    pub fn label(self) -> (s: &'static str)
        ensures
            s@ == spec_label(self),
    {
        match self {
            Grade::Again => "Again",
            Grade::Hard => "Hard",
            Grade::Good => "Good",
            Grade::Easy => "Easy",
        }
    }

    /// Background colour token per grade — red / orange / green / blue.
    pub fn bg(self) -> (s: &'static str)
        ensures
            s@ == spec_bg(self),
    {
        match self {
            Grade::Again => "bg-again",
            Grade::Hard => "bg-hard",
            Grade::Good => "bg-good",
            Grade::Easy => "bg-easy",
        }
    }
}

/// The scheduler grade a button grade stands for (one-to-one, same name).
pub open spec fn spec_scheduler_grade(g: Grade) -> scheduler::Grade {
    match g {
        Grade::Again => scheduler::Grade::Again,
        Grade::Hard => scheduler::Grade::Hard,
        Grade::Good => scheduler::Grade::Good,
        Grade::Easy => scheduler::Grade::Easy,
    }
}

impl From<Grade> for scheduler::Grade {
    fn from(grade: Grade) -> (r: scheduler::Grade) {
        match grade {
            Grade::Again => scheduler::Grade::Again,
            Grade::Hard => scheduler::Grade::Hard,
            Grade::Good => scheduler::Grade::Good,
            Grade::Easy => scheduler::Grade::Easy,
        }
    }
}

impl vstd::std_specs::convert::FromSpecImpl<Grade> for scheduler::Grade {
    open spec fn obeys_from_spec() -> bool {
        true
    }

    open spec fn from_spec(grade: Grade) -> scheduler::Grade {
        spec_scheduler_grade(grade)
    }
}

/// The mapping from buttons to scheduler grades is one-to-one.
pub proof fn lemma_grade_mapping_injective(a: Grade, b: Grade)
    ensures
        spec_scheduler_grade(a) == spec_scheduler_grade(b) ==> a == b,
{
}

/// Decimal digits of `n`, as `usize`'s `Display` writes them.
pub open spec fn decimal(n: nat) -> Seq<char>
    decreases n,
{
    if n < 10 {
        seq![(('0' as u32) + n) as char]
    } else {
        decimal(n / 10).push((('0' as u32) + (n % 10)) as char)
    }
}

/// The digit `d` as a one-character string.
fn digit_str(d: usize) -> (r: &'static str)
    requires
        d < 10,
    ensures
        r@ == seq![(('0' as u32) + d) as char],
{
    proof {
        reveal_strlit("0");
        reveal_strlit("1");
        reveal_strlit("2");
        reveal_strlit("3");
        reveal_strlit("4");
        reveal_strlit("5");
        reveal_strlit("6");
        reveal_strlit("7");
        reveal_strlit("8");
        reveal_strlit("9");
    }
    match d {
        0 => "0",
        1 => "1",
        2 => "2",
        3 => "3",
        4 => "4",
        5 => "5",
        6 => "6",
        7 => "7",
        8 => "8",
        _ => "9",
    }
}

/// Append the decimal digits of `n` to `s`, as `usize`'s `Display` writes
/// them (no sign, no padding, no separators).
fn push_decimal(s: &mut String, n: usize)
    ensures
        final(s)@ == old(s)@ + decimal(n as nat),
    decreases n,
{
    if n >= 10 {
        push_decimal(s, n / 10);
    }
    let ghost mid = s@;
    s.append(digit_str(n % 10));
    proof {
        if n >= 10 {
            assert(decimal(n as nat) == decimal((n / 10) as nat).push(
                (('0' as u32) + (n % 10)) as char,
            ));
            assert(s@ =~= old(s)@ + decimal(n as nat));
        } else {
            assert(s@ =~= old(s)@ + decimal(n as nat));
        }
    }
}

/// The current Card's position in the session queue.
#[derive(Debug, Clone, Copy, PartialEq, Eq, Structural)]
pub struct QueuePosition {
    /// 0-based index of the current Card (Cards passed so far).
    pub index: usize,
    /// Total distinct Cards in the session.
    pub total: usize,
}

impl QueuePosition {
    /// Cards remaining including the current one (`N left`).
    pub fn left(self) -> (n: usize)
        ensures
            n == if self.index <= self.total {
                self.total - self.index
            } else {
                0
            },
    {
        self.total.saturating_sub(self.index)
    }

    /// Progress-bar fill: whole percent of the session completed so far, `0`
    /// for an empty session (never a division by zero).
    pub fn percent(self) -> (p: usize)
        requires
            self.index * 100 <= usize::MAX,
        ensures
            p == if self.total == 0 {
                0
            } else {
                (self.index * 100) / (self.total as int)
            },
    {
        let scaled = self.index * 100;
        if self.total == 0 {
            0
        } else {
            scaled / self.total
        }
    }

    /// The `i/total` counter, 1-based.
    pub fn counter(self) -> (s: String)
        requires
            self.index < usize::MAX,
        ensures
            s@ == decimal((self.index + 1) as nat) + seq!['/'] + decimal(self.total as nat),
    {
        let mut s = String::new();
        push_decimal(&mut s, self.index + 1);
        proof {
            reveal_strlit("/");
        }
        s.append("/");
        push_decimal(&mut s, self.total);
        assert(s@ =~= decimal((self.index + 1) as nat) + seq!['/'] + decimal(self.total as nat));
        s
    }
}

} // verus!

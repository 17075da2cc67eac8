use vstd::prelude::*;

verus! {

#[verifier::external_type_specification]
#[verifier::external_body]
pub struct ExOwnedSemaphorePermit(tokio::sync::OwnedSemaphorePermit);

/// The value of a decimal digit character.
pub open spec fn digit_value(c: char) -> nat {
    (c as nat - '0' as nat) as nat
}

pub open spec fn all_digits(s: Seq<char>) -> bool {
    forall|i: int| 0 <= i < s.len() ==> '0' <= #[trigger] s[i] <= '9'
}

/// The number that the decimal digits `s` write.
pub open spec fn decimal_value(s: Seq<char>) -> nat
    decreases s.len(),
{
    if s.len() == 0 {
        0
    } else {
        decimal_value(s.drop_last()) * 10 + digit_value(s.last())
    }
}

/// The text of an unsigned integer: an optional `+`, then one or more decimal
/// digits, whose value fits in `usize`.
pub open spec fn usize_text(s: Seq<char>) -> Option<usize> {
    let digits = if s.len() > 0 && s[0] == '+' {
        s.drop_first()
    } else {
        s
    };
    if digits.len() > 0 && all_digits(digits) && decimal_value(digits) <= usize::MAX {
        Some(decimal_value(digits) as usize)
    } else {
        None
    }
}

/// Relies on `str::parse::<usize>`: an optional `+` followed by decimal digits
/// parses to their value when it fits; anything else is an error.
#[verifier::external_body]
fn parse_usize(s: &str) -> (r: Option<usize>)
    ensures
        r == usize_text(s@),
{
    s.parse::<usize>().ok()
}

/// Relies on `num_cpus::get`: the number of CPUs available to this process.
#[verifier::external_body]
fn detected_cpus() -> usize {
    num_cpus::get()
}

/// The number of CPUs to use, given the configured setting (if any) and the
/// number detected on the machine: a setting that parses to a positive number
/// wins, anything else falls back to the detected number.
pub fn num_cpus_from(setting: Option<&str>, detected: usize) -> (r: usize)
    ensures
        r == (match setting {
            Some(s) => match usize_text(s@) {
                Some(n) if n > 0 => n,
                _ => detected,
            },
            None => detected,
        }),
{
    match setting {
        Some(s) => match parse_usize(s) {
            Some(n) => {
                if n > 0 {
                    n
                } else {
                    detected
                }
            },
            None => detected,
        },
        None => detected,
    }
}

/// The number of CPUs to use: the configured setting when it parses to a
/// positive number, else the number of CPUs of this machine.
pub fn get_num_cpus(setting: Option<&str>) -> (r: usize)
    ensures
        setting is Some && usize_text(setting->0@) is Some && usize_text(setting->0@)->0 > 0
            ==> r == usize_text(setting->0@)->0,
{
    match setting {
        Some(s) => match parse_usize(s) {
            Some(n) => {
                if n > 0 {
                    n
                } else {
                    detected_cpus()
                }
            },
            None => detected_cpus(),
        },
        None => detected_cpus(),
    }
}

/// CPUs allocated to an operation, so that it can respect other parallel work.
/// While it holds a semaphore permit, the CPUs stay taken from the shared pool;
/// releasing (or dropping) it gives them back.
pub struct CpuPermit {
    /// Number of CPUs acquired in this permit.
    pub num_cpus: u32,
    permit: Option<tokio::sync::OwnedSemaphorePermit>,
}

impl CpuPermit {
    /// The number of CPUs of the permit.
    pub closed spec fn cpus(&self) -> u32 {
        self.num_cpus
    }

    /// The permit still holds CPUs of a shared pool.
    pub closed spec fn holds_permit(&self) -> bool {
        self.permit is Some
    }

    /// A permit for `count` CPUs backed by a semaphore permit.
    pub fn new(count: u32, permit: tokio::sync::OwnedSemaphorePermit) -> (r: CpuPermit)
        ensures
            r.cpus() == count,
            r.holds_permit(),
    {
        CpuPermit { num_cpus: count, permit: Some(permit) }
    }

    /// A permit for `count` CPUs that takes nothing from a shared pool.
    pub fn dummy(count: u32) -> (r: CpuPermit)
        ensures
            r.cpus() == count,
            !r.holds_permit(),
    {
        CpuPermit { num_cpus: count, permit: None }
    }

    /// Gives the CPUs back to the shared pool.
    pub fn release(&mut self)
        ensures
            final(self).cpus() == old(self).cpus(),
            !final(self).holds_permit(),
    {
        self.permit = None;
    }

    pub fn count(&self) -> (r: u32)
        ensures
            r == self.cpus(),
    {
        self.num_cpus
    }

    pub fn is_held(&self) -> (r: bool)
        ensures
            r == self.holds_permit(),
    {
        self.permit.is_some()
    }
}

} // verus!

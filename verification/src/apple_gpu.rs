//! Apple GPU generations, recognised from the device name that Metal reports.

use vstd::prelude::*;

use crate::text::{chars_of, is_white_space, white_space};

verus! {

/// Apple GPU family the kernels are tuned for.
#[derive(Clone, Copy, Debug, Eq, PartialEq, Structural)]
pub enum Target {
    G13,
    G14,
    G15,
    G16,
    Unknown,
}

/// A Metal device: its reported name and its GPU family.
#[derive(Clone, Debug, Eq, PartialEq)]
pub struct DeviceInfo {
    pub name: String,
    pub target: Target,
}

/// `s` with every white-space character removed.
pub open spec fn strip_white(s: Seq<char>) -> Seq<char>
    decreases s.len(),
{
    if s.len() == 0 {
        s
    } else if white_space(s.last()) {
        strip_white(s.drop_last())
    } else {
        strip_white(s.drop_last()).push(s.last())
    }
}

/// `p` is a prefix of `s`.
pub open spec fn has_prefix(s: Seq<char>, p: Seq<char>) -> bool {
    p.len() <= s.len() && s.subrange(0, p.len() as int) == p
}

/// The family of a device called `name`: Apple M1 to M4 chips map to G13 to
/// G16, judged on the name with its white space removed.
pub open spec fn target_of(name: Seq<char>) -> Target {
    let compact = strip_white(name);
    if has_prefix(compact, "AppleM1"@) {
        Target::G13
    } else if has_prefix(compact, "AppleM2"@) {
        Target::G14
    } else if has_prefix(compact, "AppleM3"@) {
        Target::G15
    } else if has_prefix(compact, "AppleM4"@) {
        Target::G16
    } else {
        Target::Unknown
    }
}

fn starts_with(s: &Vec<char>, p: &str) -> (r: bool)
    ensures
        r == has_prefix(s@, p@),
{
    let pc = chars_of(p);
    if pc.len() > s.len() {
        return false;
    }
    let mut i: usize = 0;
    while i < pc.len()
        invariant
            pc@ == p@,
            pc@.len() <= s@.len(),
            i <= pc@.len(),
            forall|j: int| 0 <= j < i ==> s@[j] == pc@[j],
        decreases pc@.len() - i,
    {
        if s[i] != pc[i] {
            assert(s@.subrange(0, pc@.len() as int)[i as int] != pc@[i as int]);
            return false;
        }
        i = i + 1;
    }
    assert(s@.subrange(0, pc@.len() as int) =~= pc@);
    true
}

/// The GPU family of a device called `name`.
pub fn target_name(name: &str) -> (r: Target)
    ensures
        r == target_of(name@),
{
    let chars = chars_of(name);
    let mut compact: Vec<char> = Vec::new();
    let mut i: usize = 0;
    while i < chars.len()
        invariant
            i <= chars@.len(),
            compact@ == strip_white(chars@.subrange(0, i as int)),
        decreases chars@.len() - i,
    {
        proof {
            assert(chars@.subrange(0, i + 1).drop_last() =~= chars@.subrange(0, i as int));
        }
        if !is_white_space(chars[i]) {
            compact.push(chars[i]);
        }
        i = i + 1;
    }
    assert(chars@.subrange(0, chars@.len() as int) =~= chars@);
    if starts_with(&compact, "AppleM1") {
        Target::G13
    } else if starts_with(&compact, "AppleM2") {
        Target::G14
    } else if starts_with(&compact, "AppleM3") {
        Target::G15
    } else if starts_with(&compact, "AppleM4") {
        Target::G16
    } else {
        Target::Unknown
    }
}

/// The description of the device that Metal reports under `name`.
pub fn device_info(name: &str) -> (r: DeviceInfo)
    ensures
        r.name@ == name@,
        r.target == target_of(name@),
{
    DeviceInfo { name: String::from_str(name), target: target_name(name) }
}

} // verus!

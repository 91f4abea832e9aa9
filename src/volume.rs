use vstd::prelude::*;
use vstd::string::StrSliceExecFns;

verus! {

/// The class of a block-storage volume. It only steers the read granularity.
#[derive(Debug, Clone, Copy, PartialEq, Eq, Structural)]
pub enum VolumeType {
    Gp2,
    Gp3,
    Io1,
    Io2,
    St1,
    Sc1,
    Unknown,
}

/// What `str::to_lowercase` makes of a sequence of characters.
pub uninterp spec fn lower_of(s: Seq<char>) -> Seq<char>;

/// Relies on `str::to_lowercase`: its result depends on the characters alone.
#[verifier::external_body]
fn lowercase(s: &str) -> (r: String)
    ensures
        r@ == lower_of(s@),
{
    s.to_lowercase()
}

/// The volume type named by an already lower-cased name; any other name is `Unknown`.
pub open spec fn volume_type_of(name: Seq<char>) -> VolumeType {
    if name == seq!['g', 'p', '2'] {
        VolumeType::Gp2
    } else if name == seq!['g', 'p', '3'] {
        VolumeType::Gp3
    } else if name == seq!['i', 'o', '1'] {
        VolumeType::Io1
    } else if name == seq!['i', 'o', '2'] {
        VolumeType::Io2
    } else if name == seq!['s', 't', '1'] {
        VolumeType::St1
    } else if name == seq!['s', 'c', '1'] {
        VolumeType::Sc1
    } else {
        VolumeType::Unknown
    }
}

fn is_three(name: &str, a: char, b: char, c: char) -> (r: bool)
    ensures
        r == (name@ == seq![a, b, c]),
{
    if name.unicode_len() != 3 {
        return false;
    }
    let r = name.get_char(0) == a && name.get_char(1) == b && name.get_char(2) == c;
    proof {
        if r {
            assert(name@ =~= seq![a, b, c]);
        }
    }
    r
}

impl VolumeType {
    /// Classifies a lower-case volume name.
    pub fn from_lowercase_name(name: &str) -> (r: VolumeType)
        ensures
            r == volume_type_of(name@),
    {
        if is_three(name, 'g', 'p', '2') {
            VolumeType::Gp2
        } else if is_three(name, 'g', 'p', '3') {
            VolumeType::Gp3
        } else if is_three(name, 'i', 'o', '1') {
            VolumeType::Io1
        } else if is_three(name, 'i', 'o', '2') {
            VolumeType::Io2
        } else if is_three(name, 's', 't', '1') {
            VolumeType::St1
        } else if is_three(name, 's', 'c', '1') {
            VolumeType::Sc1
        } else {
            VolumeType::Unknown
        }
    }

    /// Classifies a volume name regardless of letter case.
    pub fn from_name(name: &str) -> (r: VolumeType)
        ensures
            r == volume_type_of(lower_of(name@)),
    {
        let lower = lowercase(name);
        VolumeType::from_lowercase_name(lower.as_str())
    }
}

} // verus!

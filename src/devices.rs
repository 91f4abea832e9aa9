use vstd::prelude::*;
use vstd::string::StrSliceExecFns;
use vstd::string::StringExecFns;
use crate::volume::{VolumeType, volume_type_of, lower_of};

verus! {

/// The pieces of `s` between occurrences of `sep`; there is always at least one.
pub open spec fn split(s: Seq<char>, sep: char) -> Seq<Seq<char>>
    decreases s.len(),
{
    if s.len() == 0 {
        seq![Seq::empty()]
    } else {
        let p = split(s.drop_last(), sep);
        if s.last() == sep {
            p.push(Seq::empty())
        } else {
            p.update(p.len() - 1, p.last().push(s.last()))
        }
    }
}

pub proof fn lemma_split_nonempty(s: Seq<char>, sep: char)
    ensures
        split(s, sep).len() >= 1,
    decreases s.len(),
{
    if s.len() > 0 {
        lemma_split_nonempty(s.drop_last(), sep);
    }
}

/// A device to pre-warm: its path and the class of its volume.
#[derive(Debug, Clone)]
pub struct DeviceSpec {
    pub path: String,
    pub volume_type: VolumeType,
}

/// A device list that cannot be used.
#[derive(Debug, Clone)]
pub enum ParseError {
    /// This entry is not of the form `path:type` with exactly one colon.
    Malformed { entry: String },
}

/// An entry `path:type` is well formed when it holds exactly one colon.
pub open spec fn entry_ok(e: Seq<char>) -> bool {
    split(e, ':').len() == 2
}

/// The device a well-formed entry names.
pub open spec fn entry_path(e: Seq<char>) -> Seq<char> {
    split(e, ':')[0]
}

pub open spec fn entry_type(e: Seq<char>) -> VolumeType {
    volume_type_of(lower_of(split(e, ':')[1]))
}

/// Splits `s` at every `sep`.
pub fn split_on(s: &str, sep: char) -> (r: Vec<String>)
    ensures
        r@.len() == split(s@, sep).len(),
        forall|j: int| 0 <= j < r@.len() ==> (#[trigger] r@[j])@ == split(s@, sep)[j],
{
    let len = s.unicode_len();
    let mut pieces: Vec<String> = Vec::new();
    let mut start: usize = 0;
    let mut i: usize = 0;
    proof {
        assert(s@.take(0) =~= Seq::<char>::empty());
    }
    while i < len
        invariant
            len == s@.len(),
            start <= i <= len,
            pieces@.len() + 1 == split(s@.take(i as int), sep).len(),
            forall|j: int| 0 <= j < pieces@.len() ==> (#[trigger] pieces@[j])@ == split(s@.take(i as int), sep)[j],
            split(s@.take(i as int), sep).last() == s@.subrange(start as int, i as int),
        decreases len - i,
    {
        let c = s.get_char(i);
        let ghost before = split(s@.take(i as int), sep);
        proof {
            assert(s@.take(i + 1).drop_last() =~= s@.take(i as int));
            assert(s@.take(i + 1).last() == c);
            lemma_split_nonempty(s@.take(i as int), sep);
        }
        if c == sep {
            let piece = String::from_str(s.substring_char(start, i));
            pieces.push(piece);
            start = i + 1;
            proof {
                assert(s@.subrange(start as int, i + 1) =~= Seq::<char>::empty());
            }
        } else {
            proof {
                assert(s@.subrange(start as int, i + 1) =~= s@.subrange(start as int, i as int).push(c));
            }
        }
        i = i + 1;
    }
    let last = String::from_str(s.substring_char(start, len));
    pieces.push(last);
    proof {
        assert(s@.take(len as int) =~= s@);
    }
    pieces
}

/// Parses a comma-separated list of `path:type` entries. The whole list is
/// refused at its first entry that does not hold exactly one colon.
pub fn parse_device_list(s: &str) -> (r: Result<Vec<DeviceSpec>, ParseError>)
    ensures
        r is Ok <==> (forall|j: int| 0 <= j < split(s@, ',').len() ==> entry_ok(#[trigger] split(s@, ',')[j])),
        r matches Ok(v) ==> v@.len() == split(s@, ',').len() && (forall|j: int| 0 <= j < v@.len() ==> (#[trigger] v@[j]).path@ == entry_path(split(s@, ',')[j]) && v@[j].volume_type == entry_type(split(s@, ',')[j])),
        r matches Err(ParseError::Malformed { entry }) ==> (exists|j: int| 0 <= j < split(s@, ',').len() && entry@ == #[trigger] split(s@, ',')[j] && !entry_ok(split(s@, ',')[j]) && (forall|k: int| 0 <= k < j ==> entry_ok(#[trigger] split(s@, ',')[k]))),
{
    let entries = split_on(s, ',');
    let mut specs: Vec<DeviceSpec> = Vec::new();
    let mut j: usize = 0;
    while j < entries.len()
        invariant
            entries@.len() == split(s@, ',').len(),
            forall|k: int| 0 <= k < entries@.len() ==> (#[trigger] entries@[k])@ == split(s@, ',')[k],
            j <= entries@.len(),
            specs@.len() == j,
            forall|k: int| 0 <= k < j ==> entry_ok(#[trigger] split(s@, ',')[k]),
            forall|k: int| 0 <= k < j ==> (#[trigger] specs@[k]).path@ == entry_path(split(s@, ',')[k]) && specs@[k].volume_type == entry_type(split(s@, ',')[k]),
        decreases entries@.len() - j,
    {
        let entry = &entries[j];
        let parts = split_on(entry.as_str(), ':');
        if parts.len() != 2 {
            return Err(ParseError::Malformed { entry: entry.clone() });
        }
        let volume_type = VolumeType::from_name(parts[1].as_str());
        let path = parts[0].clone();
        specs.push(DeviceSpec { path, volume_type });
        j = j + 1;
    }
    Ok(specs)
}

} // verus!

//! Flag-set types and values. A flag-set type is described by a table: the
//! width of its bits and its declared flags, in declaration order, each a name
//! and a mask. A value of the type is a raw bit pattern, which may hold bits
//! that no declared flag names.

use vstd::prelude::*;
use vstd::std_specs::iter::IteratorSpec;

verus! {

broadcast use vstd::string::group_string_axioms;

/// The width of the unsigned integer that backs a flag set.
#[derive(Clone, Copy, Debug, PartialEq, Eq, Structural)]
pub enum BitWidth {
    U8,
    U16,
    U32,
    U64,
}

impl BitWidth {
    /// The largest bit pattern of this width.
    pub open spec fn max_spec(self) -> u64 {
        match self {
            BitWidth::U8 => 0xff,
            BitWidth::U16 => 0xffff,
            BitWidth::U32 => 0xffff_ffff,
            BitWidth::U64 => 0xffff_ffff_ffff_ffff,
        }
    }

    #[verifier::when_used_as_spec(max_spec)]
    pub fn max(self) -> (r: u64)
        ensures
            r == self.max_spec(),
    {
        match self {
            BitWidth::U8 => 0xff,
            BitWidth::U16 => 0xffff,
            BitWidth::U32 => 0xffff_ffff,
            BitWidth::U64 => 0xffff_ffff_ffff_ffff,
        }
    }
}

/// A declared flag: its name (empty for an unnamed flag) and its mask.
#[derive(Clone, Debug)]
pub struct Flag {
    pub name: String,
    pub bits: u64,
}

/// A flag-set type: the width of its bits and its flags in declaration order.
#[derive(Clone, Debug)]
pub struct FlagTable {
    pub width: BitWidth,
    pub flags: Vec<Flag>,
}

/// A value of a flag-set type: its raw bit pattern, unknown bits included.
#[derive(Clone, Copy, Debug, PartialEq, Eq, Structural)]
pub struct Flags {
    pub bits: u64,
}

impl Flags {
    /// The value with no bit set.
    pub fn empty() -> (r: Flags)
        ensures
            r.bits == 0,
    {
        Flags { bits: 0 }
    }

    /// The value whose bit pattern is exactly `bits`, whether or not every
    /// set bit belongs to a declared flag.
    pub fn from_bits_retain(bits: u64) -> (r: Flags)
        ensures
            r.bits == bits,
    {
        Flags { bits }
    }

    /// The raw bit pattern.
    pub fn bits(&self) -> (r: u64)
        ensures
            r == self.bits,
    {
        self.bits
    }
}

/// An ASCII letter, digit or underscore.
pub open spec fn is_ident_char(c: char) -> bool {
    ('a' <= c && c <= 'z') || ('A' <= c && c <= 'Z') || ('0' <= c && c <= '9') || c == '_'
}

/// A flag name as a Rust identifier is written: not empty, made of letters,
/// digits and underscores, and not starting with a digit.
pub open spec fn is_ident(s: Seq<char>) -> bool {
    &&& s.len() > 0
    &&& !('0' <= s[0] && s[0] <= '9')
    &&& forall|i: int| 0 <= i < s.len() ==> is_ident_char(#[trigger] s[i])
}

/// The mask of the first flag, from index `i` on, whose name is `name`.
pub open spec fn find_name_from(flags: Seq<Flag>, name: Seq<char>, i: int) -> Option<u64>
    decreases flags.len() - i,
{
    if i < 0 || i >= flags.len() {
        None
    } else if flags[i].name@ == name {
        Some(flags[i].bits)
    } else {
        find_name_from(flags, name, i + 1)
    }
}

/// The mask of the first declared flag whose name is `name`; none for the empty name.
pub open spec fn find_name(flags: Seq<Flag>, name: Seq<char>) -> Option<u64> {
    if name.len() == 0 {
        None
    } else {
        find_name_from(flags, name, 0)
    }
}

impl FlagTable {
    /// Each name is empty or an identifier, no two flags share a name, and
    /// each mask fits the width.
    pub open spec fn wf(self) -> bool {
        &&& forall|i: int|
            0 <= i < self.flags@.len() ==> {
                let n = #[trigger] self.flags@[i].name@;
                n.len() == 0 || is_ident(n)
            }
        &&& forall|i: int, j: int|
            0 <= i < self.flags@.len() && 0 <= j < self.flags@.len() && i != j
                && self.flags@[i].name@.len() > 0 ==> #[trigger] self.flags@[i].name@
                != #[trigger] self.flags@[j].name@
        &&& forall|i: int|
            0 <= i < self.flags@.len() ==> #[trigger] self.flags@[i].bits <= self.width.max_spec()
    }

    /// A value of this type: its bits fit the width.
    pub open spec fn holds(self, v: Flags) -> bool {
        v.bits <= self.width.max_spec()
    }

    /// The mask of the first declared flag named `name[lo..hi]`.
    pub fn from_name(&self, name: &Vec<char>, lo: usize, hi: usize) -> (r: Option<u64>)
        requires
            lo <= hi <= name@.len(),
        ensures
            r == find_name(self.flags@, name@.subrange(lo as int, hi as int)),
    {
        let ghost target = name@.subrange(lo as int, hi as int);
        if lo == hi {
            return None;
        }
        let mut i: usize = 0;
        while i < self.flags.len()
            invariant
                i <= self.flags@.len(),
                lo < hi <= name@.len(),
                target == name@.subrange(lo as int, hi as int),
                find_name_from(self.flags@, target, 0) == find_name_from(
                    self.flags@,
                    target,
                    i as int,
                ),
            decreases self.flags@.len() - i,
        {
            if name_matches(&self.flags[i].name, name, lo, hi) {
                return Some(self.flags[i].bits);
            }
            i = i + 1;
        }
        None
    }
}

/// Whether `s` holds exactly the characters `t[lo..hi]`.
fn name_matches(s: &String, t: &Vec<char>, lo: usize, hi: usize) -> (r: bool)
    requires
        lo <= hi <= t@.len(),
    ensures
        r == (s@ == t@.subrange(lo as int, hi as int)),
{
    let ghost want = t@.subrange(lo as int, hi as int);
    let mut it = s.chars();
    let mut k: usize = lo;
    loop
        invariant
            lo <= k <= hi <= t@.len(),
            want == t@.subrange(lo as int, hi as int),
            it.remaining() == s@.skip(k - lo),
            k - lo <= s@.len(),
            forall|j: int| 0 <= j < k - lo ==> #[trigger] s@[j] == want[j],
        decreases hi - k,
    {
        if k == hi {
            let last = it.next();
            if last.is_some() {
                assert(s@ != want) by {
                    assert(s@.len() > want.len());
                }
                return false;
            }
            assert(s@ =~= want);
            return true;
        }
        match it.next() {
            None => {
                assert(s@ != want) by {
                    assert(s@.len() < want.len());
                }
                return false;
            },
            Some(c) => {
                if c != t[k] {
                    assert(s@ != want) by {
                        assert(s@[k - lo] != want[k - lo]);
                    }
                    return false;
                }
                k = k + 1;
            },
        }
    }
}

} // verus!

//! Configured transfer buffer size: a count together with a byte unit.

use vstd::prelude::*;

use crate::decimal::{all_digits, digits_val, is_digit, lemma_digits_val_take_le};

verus! {

/// Why a buffer-size string was rejected.
#[derive(Debug, Clone, Copy, PartialEq, Eq, Structural)]
pub enum ByteSizeParseError {
    /// No leading digits, or a value too large for the machine.
    InvalidValue,
    /// The text after the digits is not a recognized unit.
    InvalidUnit,
}

/// A byte unit, either decimal (KB, MB, GB) or binary (KiB, MiB, GiB).
#[derive(Debug, Clone, Copy, PartialEq, Eq, Structural)]
pub enum ByteUnit {
    B,
    KB,
    KiB,
    MB,
    MiB,
    GB,
    GiB,
}

/// A buffer size as configured: a value scaled by a unit.
#[derive(Debug, Clone, Copy, PartialEq, Eq, Structural)]
pub struct ByteSize {
    pub value: usize,
    pub unit: ByteUnit,
}

/// The unit a textual suffix denotes, if any. Single-letter units accept
/// both cases; two-letter units accept "kb", "kB" and "KB" spellings; the
/// binary units accept "kib" and "KiB" spellings.
pub open spec fn suffix_unit(s: Seq<u8>) -> Option<ByteUnit> {
    if s.len() == 1 && (s[0] == 66 || s[0] == 98) {
        Some(ByteUnit::B)
    } else if s.len() == 2 && ((s[0] == 107 && (s[1] == 98 || s[1] == 66)) || (s[0] == 75 && s[1]
        == 66)) {
        Some(ByteUnit::KB)
    } else if s.len() == 2 && ((s[0] == 109 && (s[1] == 98 || s[1] == 66)) || (s[0] == 77 && s[1]
        == 66)) {
        Some(ByteUnit::MB)
    } else if s.len() == 2 && ((s[0] == 103 && (s[1] == 98 || s[1] == 66)) || (s[0] == 71 && s[1]
        == 66)) {
        Some(ByteUnit::GB)
    } else if s.len() == 3 && s[1] == 105 && ((s[0] == 107 && s[2] == 98) || (s[0] == 75 && s[2]
        == 66)) {
        Some(ByteUnit::KiB)
    } else if s.len() == 3 && s[1] == 105 && ((s[0] == 109 && s[2] == 98) || (s[0] == 77 && s[2]
        == 66)) {
        Some(ByteUnit::MiB)
    } else if s.len() == 3 && s[1] == 105 && ((s[0] == 103 && s[2] == 98) || (s[0] == 71 && s[2]
        == 66)) {
        Some(ByteUnit::GiB)
    } else {
        None
    }
}

/// The length of the longest prefix made of decimal digits.
pub open spec fn digit_prefix_len(s: Seq<u8>) -> nat
    decreases s.len(),
{
    if s.len() == 0 || !is_digit(s[0]) {
        0
    } else {
        1 + digit_prefix_len(s.drop_first())
    }
}

/// An index below which everything is a digit and at which the digits stop
/// is the digit prefix length.
pub proof fn lemma_digit_prefix_len_is(s: Seq<u8>, i: int)
    requires
        0 <= i <= s.len(),
        forall|j: int| 0 <= j < i ==> is_digit(#[trigger] s[j]),
        i < s.len() ==> !is_digit(s[i]),
    ensures
        digit_prefix_len(s) == i,
    decreases s.len(),
{
    if s.len() == 0 {
    } else if i == 0 {
    } else {
        assert(is_digit(s[0]));
        let t = s.drop_first();
        assert(forall|j: int| 0 <= j < i - 1 ==> #[trigger] t[j] == s[j + 1]);
        lemma_digit_prefix_len_is(t, i - 1);
    }
}

impl ByteUnit {
    /// Reads a unit suffix; rejects anything `suffix_unit` does not name.
    pub fn parse(s: &[u8]) -> (r: Result<ByteUnit, ByteSizeParseError>)
        ensures
            match r {
                Ok(u) => suffix_unit(s@) == Some(u),
                Err(e) => suffix_unit(s@) is None && e == ByteSizeParseError::InvalidUnit,
            },
    {
        if s.len() == 1 && (s[0] == 66 || s[0] == 98) {
            Ok(ByteUnit::B)
        } else if s.len() == 2 && ((s[0] == 107 && (s[1] == 98 || s[1] == 66)) || (s[0] == 75
            && s[1] == 66)) {
            Ok(ByteUnit::KB)
        } else if s.len() == 2 && ((s[0] == 109 && (s[1] == 98 || s[1] == 66)) || (s[0] == 77
            && s[1] == 66)) {
            Ok(ByteUnit::MB)
        } else if s.len() == 2 && ((s[0] == 103 && (s[1] == 98 || s[1] == 66)) || (s[0] == 71
            && s[1] == 66)) {
            Ok(ByteUnit::GB)
        } else if s.len() == 3 && s[1] == 105 && ((s[0] == 107 && s[2] == 98) || (s[0] == 75
            && s[2] == 66)) {
            Ok(ByteUnit::KiB)
        } else if s.len() == 3 && s[1] == 105 && ((s[0] == 109 && s[2] == 98) || (s[0] == 77
            && s[2] == 66)) {
            Ok(ByteUnit::MiB)
        } else if s.len() == 3 && s[1] == 105 && ((s[0] == 103 && s[2] == 98) || (s[0] == 71
            && s[2] == 66)) {
            Ok(ByteUnit::GiB)
        } else {
            Err(ByteSizeParseError::InvalidUnit)
        }
    }
}

/// How many bytes one step of the unit stands for.
pub open spec fn unit_factor(unit: ByteUnit) -> nat {
    match unit {
        ByteUnit::B => 1,
        ByteUnit::KB => 1000,
        ByteUnit::KiB => 1024,
        ByteUnit::MB => 1000000,
        ByteUnit::MiB => 1048576,
        ByteUnit::GB => 1000000000,
        ByteUnit::GiB => 1073741824,
    }
}

impl ByteSize {
    /// The configured size in plain bytes.
    pub open spec fn spec_bytes(self) -> nat {
        (self.value * unit_factor(self.unit)) as nat
    }

    /// The configured size is small enough to scale without overflow.
    pub open spec fn fits(self) -> bool {
        self.spec_bytes() <= usize::MAX
    }

    /// Reads a buffer size written as decimal digits followed by a unit
    /// suffix, such as a count of mebibytes.
    pub fn parse(s: &[u8]) -> (r: Result<ByteSize, ByteSizeParseError>)
        ensures
            ({
                let k = digit_prefix_len(s@) as int;
                match r {
                    Ok(bs) => k >= 1 && digits_val(s@.take(k)) <= usize::MAX && bs.value
                        == digits_val(s@.take(k)) && suffix_unit(s@.skip(k)) == Some(bs.unit),
                    Err(e) => if e == ByteSizeParseError::InvalidValue {
                        k == 0 || digits_val(s@.take(k)) > usize::MAX
                    } else {
                        k >= 1 && digits_val(s@.take(k)) <= usize::MAX && suffix_unit(s@.skip(k))
                            is None
                    },
                }
            }),
    {
        let mut digits: Vec<u8> = Vec::new();
        let mut i: usize = 0;
        while i < s.len() && s[i] >= 48 && s[i] <= 57
            invariant
                0 <= i <= s@.len(),
                digits@ == s@.take(i as int),
                forall|j: int| 0 <= j < i ==> is_digit(#[trigger] s@[j]),
            decreases s@.len() - i,
        {
            digits.push(s[i]);
            assert(digits@ =~= s@.take(i + 1));
            i = i + 1;
        }
        proof {
            lemma_digit_prefix_len_is(s@, i as int);
        }
        let value: usize = match crate::decimal::parse_u64(digits.as_slice()) {
            Some(v) => {
                if v > usize::MAX as u64 {
                    return Err(ByteSizeParseError::InvalidValue);
                }
                v as usize
            },
            None => {
                return Err(ByteSizeParseError::InvalidValue);
            },
        };
        let mut suffix: Vec<u8> = Vec::new();
        let mut j: usize = i;
        while j < s.len()
            invariant
                i <= j <= s@.len(),
                suffix@ == s@.subrange(i as int, j as int),
            decreases s@.len() - j,
        {
            suffix.push(s[j]);
            assert(suffix@ =~= s@.subrange(i as int, j + 1));
            j = j + 1;
        }
        assert(suffix@ =~= s@.skip(i as int));
        match ByteUnit::parse(suffix.as_slice()) {
            Ok(unit) => Ok(ByteSize { value, unit }),
            Err(e) => Err(e),
        }
    }

    /// Scales the value by its unit, refusing a size beyond the machine.
    pub fn checked_to_bytes(&self) -> (r: Option<usize>)
        ensures
            r == if self.fits() {
                Some(self.spec_bytes() as usize)
            } else {
                None::<usize>
            },
    {
        match self.unit {
            ByteUnit::B => Some(self.value),
            ByteUnit::KB => self.value.checked_mul(1000),
            ByteUnit::KiB => self.value.checked_mul(1024),
            ByteUnit::MB => self.value.checked_mul(1000000),
            ByteUnit::MiB => self.value.checked_mul(1048576),
            ByteUnit::GB => self.value.checked_mul(1000000000),
            ByteUnit::GiB => self.value.checked_mul(1073741824),
        }
    }

    /// Scales the value by its unit.
    pub fn to_bytes(&self) -> (r: usize)
        requires
            self.spec_bytes() <= usize::MAX,
        ensures
            r == self.spec_bytes(),
    {
        match self.unit {
            ByteUnit::B => self.value,
            ByteUnit::KB => self.value * 1000,
            ByteUnit::KiB => self.value * 1024,
            ByteUnit::MB => self.value * 1000000,
            ByteUnit::MiB => self.value * 1048576,
            ByteUnit::GB => self.value * 1000000000,
            ByteUnit::GiB => self.value * 1073741824,
        }
    }
}

} // verus!

//! The persisted per-file progress record.
//!
//! One small file per in-flight transfer holds two lines: the current byte
//! offset, blank-filled to a constant width so an in-place overwrite never
//! changes the line's length, and the total byte count. The offset is
//! rewritten durably after every chunk; on resume the record is read back
//! and is the only state that is trusted.

use vstd::prelude::*;

use crate::decimal::{
    all_digits, dec_digits, digits_val, is_digit, lemma_dec_digits_val, lemma_dec_digits_wf,
    parse_u64, format_u64,
};

verus! {

/// The width of the record's first line: room for any offset's digits.
pub const OFFSET_LINE_WIDTH: usize = 128;

/// A progress record: how many bytes are durably confirmed, out of how
/// many the source held when the transfer began.
#[derive(Debug, Clone, Copy, PartialEq, Eq, Structural)]
pub struct Progress {
    pub current: u64,
    pub total: u64,
}

/// A run of blank bytes.
pub open spec fn spaces(n: nat) -> Seq<u8> {
    Seq::new(n, |i: int| 32u8)
}

/// A fresh record's bytes: a zero offset blank-filled to the line width,
/// then the total on its own line.
pub open spec fn spec_initial_record(total: nat) -> Seq<u8> {
    seq![48u8] + spaces((OFFSET_LINE_WIDTH - 1) as nat) + seq![10u8] + dec_digits(total)
}

/// A file's bytes after data is written over its start in place.
pub open spec fn spec_overwrite_start(file: Seq<u8>, data: Seq<u8>) -> Seq<u8> {
    if data.len() >= file.len() {
        data
    } else {
        data + file.skip(data.len() as int)
    }
}

/// The first line with its trailing blanks removed.
pub open spec fn trim_spaces_end(s: Seq<u8>) -> Seq<u8>
    decreases s.len(),
{
    if s.len() > 0 && s.last() == 32 {
        trim_spaces_end(s.drop_last())
    } else {
        s
    }
}

/// What reading a record's bytes yields: the offset before the first line
/// break, blanks ignored, and the total after it, both decimal numerals.
pub open spec fn spec_parse_record(file: Seq<u8>) -> Option<Progress> {
    match file.index_of_first(10u8) {
        None => None,
        Some(i) => {
            let head = trim_spaces_end(file.take(i));
            let tail = file.skip(i + 1);
            if head.len() >= 1 && all_digits(head) && digits_val(head) <= u64::MAX && tail.len()
                >= 1 && all_digits(tail) && digits_val(tail) <= u64::MAX {
                Some(
                    Progress {
                        current: digits_val(head) as u64,
                        total: digits_val(tail) as u64,
                    },
                )
            } else {
                None
            }
        },
    }
}

/// Writes a fresh record for a file of this size.
pub fn encode_initial_record(total: u64) -> (r: Vec<u8>)
    ensures
        r@ == spec_initial_record(total as nat),
{
    let mut out: Vec<u8> = Vec::new();
    out.push(48);
    let mut i: usize = 1;
    while i < OFFSET_LINE_WIDTH
        invariant
            1 <= i <= OFFSET_LINE_WIDTH,
            out@ == seq![48u8] + spaces((i - 1) as nat),
        decreases OFFSET_LINE_WIDTH - i,
    {
        out.push(32);
        assert(out@ =~= seq![48u8] + spaces(i as nat));
        i = i + 1;
    }
    out.push(10);
    let digits = format_u64(total);
    let mut j: usize = 0;
    while j < digits.len()
        invariant
            0 <= j <= digits@.len(),
            digits@ == dec_digits(total as nat),
            out@ == seq![48u8] + spaces((OFFSET_LINE_WIDTH - 1) as nat) + seq![10u8]
                + digits@.take(j as int),
        decreases digits@.len() - j,
    {
        out.push(digits[j]);
        assert(out@ =~= seq![48u8] + spaces((OFFSET_LINE_WIDTH - 1) as nat) + seq![10u8]
            + digits@.take(j + 1));
        j = j + 1;
    }
    assert(out@ =~= spec_initial_record(total as nat));
    out
}

/// The digits written over the record's first line after a chunk lands.
pub fn encode_offset(current: u64) -> (r: Vec<u8>)
    ensures
        r@ == dec_digits(current as nat),
        r@.len() <= 20,
{
    proof {
        lemma_dec_digits_len_u64(current);
    }
    format_u64(current)
}

/// Writes data over the start of a file image, in place.
pub fn overwrite_start(file: &mut Vec<u8>, data: &[u8])
    ensures
        final(file)@ == spec_overwrite_start(old(file)@, data@),
{
    let mut i: usize = 0;
    while i < data.len()
        invariant
            0 <= i <= data@.len(),
            file@.len() == if data@.len() >= old(file)@.len() {
                if i as int > old(file)@.len() {
                    i as int
                } else {
                    old(file)@.len() as int
                }
            } else {
                old(file)@.len() as int
            },
            forall|j: int| 0 <= j < i ==> file@[j] == data@[j],
            forall|j: int|
                i <= j < old(file)@.len() && j < file@.len() ==> file@[j] == old(file)@[j],
        decreases data@.len() - i,
    {
        if i < file.len() {
            file.set(i, data[i]);
        } else {
            file.push(data[i]);
        }
        i = i + 1;
    }
    proof {
        assert(file@ =~= spec_overwrite_start(old(file)@, data@));
    }
}

/// Reads a record's bytes back.
pub fn parse_record(bytes: &[u8]) -> (r: Option<Progress>)
    ensures
        r == spec_parse_record(bytes@),
{
    proof {
        bytes@.index_of_first_ensures(10u8);
    }
    let mut nl: usize = 0;
    let mut found = false;
    let mut i: usize = 0;
    while i < bytes.len() && !found
        invariant
            0 <= i <= bytes@.len(),
            !found ==> forall|j: int| 0 <= j < i ==> bytes@[j] != 10u8,
            found ==> nl < i && bytes@[nl as int] == 10u8 && (forall|j: int|
                0 <= j < nl ==> bytes@[j] != 10u8),
        decreases bytes@.len() - i + (if found { 0int } else { 1int }),
    {
        if bytes[i] == 10 {
            found = true;
            nl = i;
        }
        i = i + 1;
    }
    if !found {
        assert(bytes@.index_of_first(10u8) is None);
        return None;
    }
    assert(bytes@.index_of_first(10u8) == Some(nl as int)) by {
        bytes@.index_of_first_ensures(10u8);
        if bytes@.index_of_first(10u8) is None {
            assert(!bytes@.contains(10u8));
            assert(bytes@[nl as int] == 10u8);
        }
        let k = bytes@.index_of_first(10u8).unwrap();
        if k < nl {
            assert(bytes@[k] != 10u8);
        }
        if k > nl {
            assert(bytes@[nl as int] != 10u8);
        }
    }
    // the first line, trailing blanks dropped
    let mut e: usize = nl;
    while e > 0 && bytes[e - 1] == 32
        invariant
            0 <= e <= nl <= bytes@.len(),
            trim_spaces_end(bytes@.take(nl as int)) == trim_spaces_end(bytes@.take(e as int)),
        decreases e,
    {
        proof {
            assert(bytes@.take(e as int).last() == 32);
            assert(bytes@.take(e as int).drop_last() =~= bytes@.take(e - 1));
        }
        e = e - 1;
    }
    proof {
        assert(trim_spaces_end(bytes@.take(e as int)) == bytes@.take(e as int));
    }
    let mut head: Vec<u8> = Vec::new();
    let mut h: usize = 0;
    while h < e
        invariant
            0 <= h <= e <= bytes@.len(),
            head@ == bytes@.take(e as int).take(h as int),
        decreases e - h,
    {
        head.push(bytes[h]);
        assert(head@ =~= bytes@.take(e as int).take(h + 1));
        h = h + 1;
    }
    assert(head@ =~= bytes@.take(e as int));
    let mut tail: Vec<u8> = Vec::new();
    let mut t: usize = nl + 1;
    while t < bytes.len()
        invariant
            nl as int + 1 <= t <= bytes@.len(),
            tail@ == bytes@.subrange(nl as int + 1, t as int),
        decreases bytes@.len() - t,
    {
        tail.push(bytes[t]);
        assert(tail@ =~= bytes@.subrange(nl as int + 1, t + 1));
        t = t + 1;
    }
    assert(tail@ =~= bytes@.skip(nl as int + 1));
    let current = match parse_u64(head.as_slice()) {
        Some(v) => v,
        None => {
            return None;
        },
    };
    let total = match parse_u64(tail.as_slice()) {
        Some(v) => v,
        None => {
            return None;
        },
    };
    Some(Progress { current, total })
}

/// Ten to a power.
pub open spec fn pow10(k: nat) -> nat
    decreases k,
{
    if k == 0 {
        1
    } else {
        10 * pow10((k - 1) as nat)
    }
}

/// A number below ten to the k has at most k digits.
pub proof fn lemma_dec_digits_len(n: nat, k: nat)
    requires
        k >= 1,
        n < pow10(k),
    ensures
        dec_digits(n).len() <= k,
    decreases k,
{
    if n >= 10 {
        assert(pow10(k) == 10 * pow10((k - 1) as nat));
        lemma_dec_digits_len(n / 10, (k - 1) as nat);
    }
}

/// A machine word's digits fit well inside the record's first line.
pub proof fn lemma_dec_digits_len_u64(n: u64)
    ensures
        dec_digits(n as nat).len() <= 20,
{
    assert(pow10(20) == 100000000000000000000) by {
        reveal_with_fuel(pow10, 21);
    }
    lemma_dec_digits_len(n as nat, 20);
}

/// Trailing blanks are exactly what trimming removes.
pub proof fn lemma_trim_spaces_end_pad(x: Seq<u8>, k: nat)
    requires
        x.len() == 0 || x.last() != 32,
    ensures
        trim_spaces_end(x + spaces(k)) == x,
    decreases k,
{
    if k == 0 {
        assert(x + spaces(0) =~= x);
    } else {
        let s = x + spaces(k);
        assert(s.len() > 0 && s.last() == 32);
        assert(s.drop_last() =~= x + spaces((k - 1) as nat));
        lemma_trim_spaces_end_pad(x, (k - 1) as nat);
    }
}

/// Round trip of the durable record: writing a fresh record for a total,
/// then overwriting its first line with any confirmed offset, reads back
/// as exactly that offset and total. A resume therefore starts from the
/// last offset that was durably recorded, never from a guess.
pub proof fn lemma_record_round_trip(total: u64, current: u64)
    ensures
        spec_parse_record(
            spec_overwrite_start(spec_initial_record(total as nat), dec_digits(current as nat)),
        ) == Some(Progress { current, total }),
{
    let w = dec_digits(current as nat);
    let d = dec_digits(total as nat);
    let init = spec_initial_record(total as nat);
    lemma_dec_digits_wf(current as nat);
    lemma_dec_digits_wf(total as nat);
    lemma_dec_digits_len_u64(current);
    lemma_dec_digits_val(current as nat);
    lemma_dec_digits_val(total as nat);
    let width = OFFSET_LINE_WIDTH as int;
    assert(init.len() == width + 1 + d.len());
    let file = spec_overwrite_start(init, w);
    assert(file =~= w + spaces((width - w.len()) as nat) + seq![10u8] + d);
    assert(file.len() == width + 1 + d.len());
    assert(file[width] == 10u8);
    assert forall|j: int| 0 <= j < width implies file[j] != 10u8 by {
        if j < w.len() {
            assert(is_digit(w[j]));
        } else {
            assert(file[j] == 32u8);
        }
    }
    file.index_of_first_ensures(10u8);
    assert(file.index_of_first(10u8) == Some(width)) by {
        if file.index_of_first(10u8) is None {
            assert(!file.contains(10u8));
            assert(file[width] == 10u8);
        }
        let k = file.index_of_first(10u8).unwrap();
        if k < width {
            assert(file[k] != 10u8);
        }
        if k > width {
            assert(file[width] != 10u8);
        }
    }
    assert(file.take(width) =~= w + spaces((width - w.len()) as nat));
    assert(w.last() != 32) by {
        assert(is_digit(w.last()));
    }
    lemma_trim_spaces_end_pad(w, (width - w.len()) as nat);
    assert(file.skip(width + 1) =~= d);
}

} // verus!

//! Batch-mode input: one transfer job per line.
//!
//! A line names a source and one or more destinations, separated by
//! colons. Blank lines and lines whose first dark character is a hash
//! are ignored. Fields are trimmed of surrounding whitespace.

use vstd::prelude::*;

verus! {

/// An ASCII whitespace byte as trimming sees it.
pub open spec fn is_space(b: u8) -> bool {
    b == 32 || b == 9 || b == 13 || b == 10
}

/// The text with leading whitespace removed.
pub open spec fn trim_front(s: Seq<u8>) -> Seq<u8>
    decreases s.len(),
{
    if s.len() > 0 && is_space(s[0]) {
        trim_front(s.drop_first())
    } else {
        s
    }
}

/// The text with trailing whitespace removed.
pub open spec fn trim_back(s: Seq<u8>) -> Seq<u8>
    decreases s.len(),
{
    if s.len() > 0 && is_space(s.last()) {
        trim_back(s.drop_last())
    } else {
        s
    }
}

/// The text with whitespace removed from both ends.
pub open spec fn trim_spaces(s: Seq<u8>) -> Seq<u8> {
    trim_back(trim_front(s))
}

/// The length of the first field: the bytes before the first colon.
pub open spec fn first_field_len(s: Seq<u8>) -> nat
    decreases s.len(),
{
    if s.len() == 0 {
        0
    } else if s[0] == 58 {
        0
    } else {
        1 + first_field_len(s.drop_first())
    }
}

/// The first field is never longer than the line.
pub proof fn lemma_first_field_len_le(s: Seq<u8>)
    ensures
        first_field_len(s) <= s.len(),
    decreases s.len(),
{
    if s.len() > 0 && s[0] != 58 {
        lemma_first_field_len_le(s.drop_first());
    }
}

/// An index below which nothing is a colon and at which one stands, or
/// the line ends, is the first field's length.
pub proof fn lemma_first_field_len_is(s: Seq<u8>, n: int)
    requires
        0 <= n <= s.len(),
        forall|j: int| 0 <= j < n ==> s[j] != 58u8,
        n < s.len() ==> s[n] == 58u8,
    ensures
        first_field_len(s) == n,
    decreases s.len(),
{
    if s.len() == 0 || n == 0 {
    } else {
        let t = s.drop_first();
        assert(forall|j: int| 0 <= j < n - 1 ==> #[trigger] t[j] == s[j + 1]);
        lemma_first_field_len_is(t, n - 1);
    }
}

/// The line cut at every colon: each field in order, empties kept, one
/// field even for an empty line.
pub open spec fn spec_split_fields(s: Seq<u8>) -> Seq<Seq<u8>>
    decreases s.len(),
    via spec_split_fields_decreases
{
    let n = first_field_len(s) as int;
    if n == s.len() {
        seq![s]
    } else {
        seq![s.take(n)] + spec_split_fields(s.skip(n + 1))
    }
}

#[via_fn]
proof fn spec_split_fields_decreases(s: Seq<u8>) {
    lemma_first_field_len_le(s);
}

/// What one batch line asks for.
#[derive(Debug)]
pub enum JobLine {
    /// A blank line, or a comment: nothing to do.
    Ignored,
    /// A line with no colon at all names no destination; the run stops.
    MissingDestination,
    /// A job: the source path and the destination paths, trimmed.
    Job(Vec<u8>, Vec<Vec<u8>>),
}

/// Trims whitespace from both ends.
pub fn trim_bytes(s: &[u8]) -> (r: Vec<u8>)
    ensures
        r@ == trim_spaces(s@),
{
    let mut a: usize = 0;
    proof {
        assert(s@.skip(0) =~= s@);
    }
    while a < s.len() && (s[a] == 32 || s[a] == 9 || s[a] == 13 || s[a] == 10)
        invariant
            0 <= a <= s@.len(),
            trim_front(s@) == trim_front(s@.skip(a as int)),
        decreases s@.len() - a,
    {
        proof {
            assert(s@.skip(a as int).drop_first() =~= s@.skip(a as int + 1));
        }
        a = a + 1;
    }
    proof {
        assert(trim_front(s@.skip(a as int)) == s@.skip(a as int));
    }
    let mut b: usize = s.len();
    proof {
        assert(s@.subrange(a as int, b as int) =~= s@.skip(a as int));
    }
    while b > a && (s[b - 1] == 32 || s[b - 1] == 9 || s[b - 1] == 13 || s[b - 1] == 10)
        invariant
            0 <= a <= b <= s@.len(),
            trim_back(s@.skip(a as int)) == trim_back(s@.subrange(a as int, b as int)),
        decreases b,
    {
        proof {
            assert(s@.subrange(a as int, b as int).last() == s@[b - 1]);
            assert(s@.subrange(a as int, b as int).drop_last() =~= s@.subrange(
                a as int,
                b as int - 1,
            ));
        }
        b = b - 1;
    }
    proof {
        assert(trim_back(s@.subrange(a as int, b as int)) == s@.subrange(a as int, b as int));
    }
    let mut r: Vec<u8> = Vec::new();
    let mut k: usize = a;
    while k < b
        invariant
            a <= k <= b <= s@.len(),
            r@ == s@.subrange(a as int, k as int),
        decreases b - k,
    {
        r.push(s[k]);
        assert(r@ =~= s@.subrange(a as int, k + 1));
        k = k + 1;
    }
    proof {
        assert(r@ =~= s@.subrange(a as int, b as int));
    }
    r
}

/// Cuts a line at its colons.
fn split_fields(line: &[u8]) -> (r: Vec<Vec<u8>>)
    ensures
        r.deep_view() == spec_split_fields(line@),
        r@.len() >= 1,
{
    let mut fields: Vec<Vec<u8>> = Vec::new();
    let mut p: usize = 0;
    let mut done = false;
    proof {
        assert(line@.skip(0) =~= line@);
        assert(fields.deep_view() =~~= Seq::<Seq<u8>>::empty());
        assert(fields.deep_view() + spec_split_fields(line@) =~~= spec_split_fields(line@));
    }
    while !done
        invariant
            0 <= p <= line@.len(),
            !done ==> spec_split_fields(line@) =~~= fields.deep_view() + spec_split_fields(
                line@.skip(p as int),
            ),
            done ==> fields.deep_view() =~~= spec_split_fields(line@) && fields@.len() >= 1,
        decreases line@.len() - p + (if done {
            0int
        } else {
            1int
        }),
    {
        let ghost prev = fields.deep_view();
        let mut i: usize = p;
        while i < line.len() && line[i] != 58
            invariant
                p <= i <= line@.len(),
                forall|j: int| p <= j < i ==> line@[j] != 58u8,
            decreases line@.len() - i,
        {
            i = i + 1;
        }
        let ghost s = line@.skip(p as int);
        proof {
            assert(forall|j: int| 0 <= j < i - p ==> #[trigger] s[j] == line@[j + p]);
            lemma_first_field_len_is(s, i as int - p as int);
        }
        let mut field: Vec<u8> = Vec::new();
        let mut h: usize = p;
        while h < i
            invariant
                p <= h <= i <= line@.len(),
                field@ == line@.subrange(p as int, h as int),
            decreases i - h,
        {
            field.push(line[h]);
            assert(field@ =~= line@.subrange(p as int, h + 1));
            h = h + 1;
        }
        fields.push(field);
        proof {
            assert(fields.deep_view() =~~= prev.push(line@.subrange(p as int, i as int)));
            assert(line@.subrange(p as int, i as int) =~= s.take(i as int - p as int));
        }
        if i < line.len() {
            proof {
                assert(s.skip(i as int - p as int + 1) =~= line@.skip(i as int + 1));
                assert(spec_split_fields(s) =~~= seq![s.take(i as int - p as int)]
                    + spec_split_fields(s.skip(i as int - p as int + 1)));
            }
            p = i + 1;
        } else {
            proof {
                assert(s.take(i as int - p as int) =~= s);
                assert(first_field_len(s) == s.len());
                assert(spec_split_fields(s) =~~= seq![s]);
                assert(fields.deep_view() =~~= prev.push(s));
            }
            p = i;
            done = true;
        }
    }
    fields
}

/// Reads one batch line: nothing for a blank or comment line, an error
/// for a line with no destination, or the job it names.
pub fn parse_job_line(line: &[u8]) -> (r: JobLine)
    ensures
        ({
            let lead = trim_front(line@);
            let fields = spec_split_fields(line@);
            match r {
                JobLine::Ignored => lead.len() == 0 || lead[0] == 35,
                JobLine::MissingDestination => (lead.len() > 0 && lead[0] != 35) && fields.len()
                    == 1,
                JobLine::Job(source, destinations) => {
                    &&& lead.len() > 0 && lead[0] != 35
                    &&& fields.len() >= 2
                    &&& source@ == trim_spaces(fields[0])
                    &&& destinations.deep_view().len() == fields.len() - 1
                    &&& forall|k: int|
                        0 <= k < fields.len() - 1 ==> destinations.deep_view()[k] == trim_spaces(
                            #[trigger] fields[k + 1],
                        )
                },
            }
        }),
{
    // a blank line, or one whose first dark character is a hash
    let mut a: usize = 0;
    proof {
        assert(line@.skip(0) =~= line@);
    }
    while a < line.len() && (line[a] == 32 || line[a] == 9 || line[a] == 13 || line[a] == 10)
        invariant
            0 <= a <= line@.len(),
            trim_front(line@) == trim_front(line@.skip(a as int)),
        decreases line@.len() - a,
    {
        proof {
            assert(line@.skip(a as int).drop_first() =~= line@.skip(a as int + 1));
        }
        a = a + 1;
    }
    proof {
        assert(trim_front(line@.skip(a as int)) == line@.skip(a as int));
    }
    if a == line.len() {
        return JobLine::Ignored;
    }
    if line[a] == 35 {
        proof {
            assert(trim_front(line@)[0] == line@[a as int]);
        }
        return JobLine::Ignored;
    }
    proof {
        assert(trim_front(line@)[0] == line@[a as int]);
    }
    let fields = split_fields(line);
    if fields.len() == 1 {
        return JobLine::MissingDestination;
    }
    let source = trim_bytes(fields[0].as_slice());
    proof {
        assert(fields.deep_view()[0] =~= fields@[0]@);
    }
    let mut destinations: Vec<Vec<u8>> = Vec::new();
    let mut k: usize = 1;
    while k < fields.len()
        invariant
            1 <= k <= fields@.len(),
            fields.deep_view().len() == fields@.len(),
            destinations.deep_view().len() == k - 1,
            forall|j: int|
                0 <= j < k - 1 ==> destinations.deep_view()[j] == trim_spaces(
                    #[trigger] fields.deep_view()[j + 1],
                ),
        decreases fields@.len() - k,
    {
        let ghost prev = destinations.deep_view();
        let d = trim_bytes(fields[k].as_slice());
        proof {
            assert(fields.deep_view()[k as int] =~= fields@[k as int]@);
        }
        destinations.push(d);
        proof {
            assert(destinations.deep_view() =~~= prev.push(d@));
        }
        k = k + 1;
    }
    JobLine::Job(source, destinations)
}

/// Round trip through a batch line: joining a well-formed source and
/// destination with the separator parses back to exactly that pair. A
/// path is well formed here when it is nonempty, colon-free, already
/// trimmed, and does not begin the line as a comment would.
pub proof fn lemma_job_line_round_trip(src: Seq<u8>, dest: Seq<u8>)
    requires
        src.len() > 0,
        forall|j: int| 0 <= j < src.len() ==> src[j] != 58u8,
        forall|j: int| 0 <= j < dest.len() ==> dest[j] != 58u8,
        trim_spaces(src) == src,
        trim_spaces(dest) == dest,
        !is_space(src[0]),
        src[0] != 35,
    ensures
        trim_front(src + seq![58u8] + dest).len() > 0,
        trim_front(src + seq![58u8] + dest)[0] != 35,
        spec_split_fields(src + seq![58u8] + dest) == seq![src, dest],
        trim_spaces(spec_split_fields(src + seq![58u8] + dest)[0]) == src,
        trim_spaces(spec_split_fields(src + seq![58u8] + dest)[1]) == dest,
{
    let line = src + seq![58u8] + dest;
    assert(line[0] == src[0]);
    assert(trim_front(line) == line);
    assert(forall|j: int| 0 <= j < src.len() ==> line[j] == src[j]);
    assert(line[src.len() as int] == 58u8);
    lemma_first_field_len_is(line, src.len() as int);
    assert(line.take(src.len() as int) =~= src);
    assert(line.skip(src.len() as int + 1) =~= dest);
    lemma_first_field_len_is(dest, dest.len() as int);
    assert(spec_split_fields(dest) =~~= seq![dest]);
    assert(spec_split_fields(line) =~~= seq![src, dest]);
}

} // verus!

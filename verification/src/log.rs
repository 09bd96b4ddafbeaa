//! The completed log: one relative destination path per line.
//!
//! The log is append-only. It is read whole once at startup to filter
//! already-finished files out of the work list, and one line is appended,
//! durably, each time a file finishes.

use vstd::prelude::*;

verus! {

/// The length of the first line: the bytes before the first line break.
pub open spec fn first_line_len(s: Seq<u8>) -> nat
    decreases s.len(),
{
    if s.len() == 0 {
        0
    } else if s[0] == 10 {
        0
    } else {
        1 + first_line_len(s.drop_first())
    }
}

/// The first line is never longer than the text.
pub proof fn lemma_first_line_len_le(s: Seq<u8>)
    ensures
        first_line_len(s) <= s.len(),
    decreases s.len(),
{
    if s.len() > 0 && s[0] != 10 {
        lemma_first_line_len_le(s.drop_first());
    }
}

/// An index below which nothing is a line break and at which one stands,
/// or the text ends, is the first line's length.
pub proof fn lemma_first_line_len_is(s: Seq<u8>, n: int)
    requires
        0 <= n <= s.len(),
        forall|j: int| 0 <= j < n ==> s[j] != 10u8,
        n < s.len() ==> s[n] == 10u8,
    ensures
        first_line_len(s) == n,
    decreases s.len(),
{
    if s.len() == 0 || n == 0 {
    } else {
        let t = s.drop_first();
        assert(forall|j: int| 0 <= j < n - 1 ==> #[trigger] t[j] == s[j + 1]);
        lemma_first_line_len_is(t, n - 1);
    }
}

/// The entries a log's bytes hold: the lines, empty ones ignored, with a
/// last unterminated line counted too.
pub open spec fn spec_parse_log(s: Seq<u8>) -> Seq<Seq<u8>>
    decreases s.len(),
    via spec_parse_log_decreases
{
    if s.len() == 0 {
        Seq::<Seq<u8>>::empty()
    } else {
        let n = first_line_len(s) as int;
        if n == s.len() {
            seq![s]
        } else {
            let head = s.take(n);
            let rest = spec_parse_log(s.skip(n + 1));
            if n == 0 {
                rest
            } else {
                seq![head] + rest
            }
        }
    }
}

#[via_fn]
proof fn spec_parse_log_decreases(s: Seq<u8>) {
    lemma_first_line_len_le(s);
}

/// The log's bytes for a list of entries: each entry, then a line break.
pub open spec fn spec_log(entries: Seq<Seq<u8>>) -> Seq<u8>
    decreases entries.len(),
{
    if entries.len() == 0 {
        Seq::<u8>::empty()
    } else {
        entries.first() + seq![10u8] + spec_log(entries.drop_first())
    }
}

/// An entry fit for the log: some text, with no line break inside.
pub open spec fn log_entry_ok(entry: Seq<u8>) -> bool {
    entry.len() >= 1 && forall|j: int| 0 <= j < entry.len() ==> entry[j] != 10u8
}

/// Appends one entry and its line break to a log image.
pub fn append_entry(log: &mut Vec<u8>, entry: &[u8])
    ensures
        final(log)@ == old(log)@ + entry@ + seq![10u8],
{
    let mut i: usize = 0;
    while i < entry.len()
        invariant
            0 <= i <= entry@.len(),
            log@ == old(log)@ + entry@.take(i as int),
        decreases entry@.len() - i,
    {
        log.push(entry[i]);
        assert(log@ =~= old(log)@ + entry@.take(i + 1));
        i = i + 1;
    }
    assert(log@ =~= old(log)@ + entry@);
    log.push(10);
}

/// Reads a log's bytes into the list of entries.
pub fn parse_completed_log(bytes: &[u8]) -> (r: Vec<Vec<u8>>)
    ensures
        r.deep_view() == spec_parse_log(bytes@),
{
    let mut r: Vec<Vec<u8>> = Vec::new();
    let mut p: usize = 0;
    proof {
        assert(bytes@.skip(0) =~= bytes@);
        assert(r.deep_view() =~~= Seq::<Seq<u8>>::empty());
    }
    while p < bytes.len()
        invariant
            0 <= p <= bytes@.len(),
            spec_parse_log(bytes@) =~~= r.deep_view() + spec_parse_log(bytes@.skip(p as int)),
        decreases bytes@.len() - p,
    {
        let ghost prev = r.deep_view();
        let mut i: usize = p;
        while i < bytes.len() && bytes[i] != 10
            invariant
                p <= i <= bytes@.len(),
                forall|j: int| p <= j < i ==> bytes@[j] != 10u8,
            decreases bytes@.len() - i,
        {
            i = i + 1;
        }
        let s = Ghost(bytes@.skip(p as int));
        proof {
            assert(forall|j: int| 0 <= j < i - p ==> #[trigger] s@[j] == bytes@[j + p]);
            lemma_first_line_len_is(s@, i as int - p as int);
        }
        let mut line: Vec<u8> = Vec::new();
        let mut h: usize = p;
        while h < i
            invariant
                p <= h <= i <= bytes@.len(),
                line@ == bytes@.subrange(p as int, h as int),
            decreases i - h,
        {
            line.push(bytes[h]);
            assert(line@ =~= bytes@.subrange(p as int, h + 1));
            h = h + 1;
        }
        proof {
            assert(line@ =~= s@.take(i as int - p as int));
        }
        if i < bytes.len() {
            // a terminated line: skip its break, keep it unless empty
            if line.len() > 0 {
                r.push(line);
                proof {
                    assert(r.deep_view() =~~= prev.push(s@.take(i as int - p as int)));
                    assert(s@.skip(i as int - p as int + 1) =~= bytes@.skip(i as int + 1));
                    assert(spec_parse_log(s@) =~~= seq![s@.take(i as int - p as int)]
                        + spec_parse_log(s@.skip(i as int - p as int + 1)));
                }
            } else {
                proof {
                    assert(s@.skip(i as int - p as int + 1) =~= bytes@.skip(i as int + 1));
                }
            }
            p = i + 1;
        } else {
            // an unterminated last line
            if line.len() > 0 {
                r.push(line);
                proof {
                    assert(line@ =~= s@);
                    assert(r.deep_view() =~~= prev.push(s@));
                    assert(first_line_len(s@) == s@.len());
                    assert(spec_parse_log(s@) =~~= seq![s@]);
                }
            }
            p = i;
            proof {
                assert(bytes@.skip(p as int).len() == 0);
            }
        }
    }
    proof {
        assert(bytes@.skip(p as int).len() == 0);
        assert(spec_parse_log(bytes@.skip(p as int)) =~~= Seq::<Seq<u8>>::empty());
        assert(r.deep_view() =~~= spec_parse_log(bytes@));
    }
    r
}

/// Parsing a log built by appends gives the entries back: one line in the
/// log for each finished file, in order, none lost and none invented.
pub proof fn lemma_log_round_trip(entries: Seq<Seq<u8>>)
    requires
        forall|i: int| 0 <= i < entries.len() ==> log_entry_ok(#[trigger] entries[i]),
    ensures
        spec_parse_log(spec_log(entries)) == entries,
    decreases entries.len(),
{
    if entries.len() == 0 {
    } else {
        let e = entries.first();
        let t = entries.drop_first();
        assert(log_entry_ok(e));
        assert(forall|i: int| 0 <= i < t.len() ==> log_entry_ok(#[trigger] t[i])) by {
            assert(forall|i: int| 0 <= i < t.len() ==> t[i] == entries[i + 1]);
        }
        lemma_log_round_trip(t);
        let s = spec_log(entries);
        assert(s == e + seq![10u8] + spec_log(t));
        assert(forall|j: int| 0 <= j < e.len() ==> s[j] == e[j]);
        assert(s[e.len() as int] == 10u8);
        lemma_first_line_len_is(s, e.len() as int);
        assert(s.take(e.len() as int) =~= e);
        assert(s.skip(e.len() as int + 1) =~= spec_log(t));
        assert(spec_parse_log(s) =~~= entries);
    }
}

} // verus!

use vstd::prelude::*;
use vstd::slice::{slice_subrange, slice_to_vec};

verus! {

/// The position of the first comma, or the length when there is none.
pub open spec fn first_comma(s: Seq<u8>) -> int
    decreases s.len(),
{
    if s.len() == 0 {
        0
    } else if s[0] == 44u8 {
        0
    } else {
        1 + first_comma(s.drop_first())
    }
}

proof fn lemma_first_comma(s: Seq<u8>)
    ensures
        0 <= first_comma(s) <= s.len(),
        forall|k: int| 0 <= k < first_comma(s) ==> s[k] != 44u8,
        first_comma(s) < s.len() ==> s[first_comma(s)] == 44u8,
    decreases s.len(),
{
    if s.len() > 0 && s[0] != 44u8 {
        lemma_first_comma(s.drop_first());
        assert forall|k: int| 0 <= k < first_comma(s) implies s[k] != 44u8 by {
            if k >= 1 {
                assert(s.drop_first()[k - 1] == s[k]);
            }
        };
        if first_comma(s) < s.len() {
            assert(s.drop_first()[first_comma(s) - 1] == s[first_comma(s)]);
        }
    }
}

/// A comma comes exactly where the characters say it does.
proof fn lemma_first_comma_at(s: Seq<u8>, p: int)
    requires
        0 <= p <= s.len(),
        forall|k: int| 0 <= k < p ==> s[k] != 44u8,
        p < s.len() ==> s[p] == 44u8,
    ensures
        first_comma(s) == p,
    decreases s.len(),
{
    if s.len() > 0 && s[0] != 44u8 {
        assert(forall|k: int| 0 <= k < s.len() - 1 ==> s.drop_first()[k] == s[k + 1]);
        lemma_first_comma_at(s.drop_first(), p - 1);
    }
}

/// The comma-separated pieces of a configuration string, in order, empty
/// pieces kept; a string with no comma is one piece.
pub open spec fn split_commas(s: Seq<u8>) -> Seq<Seq<u8>>
    decreases s.len(),
{
    let p = first_comma(s);
    if 0 <= p < s.len() {
        seq![s.take(p)] + split_commas(s.skip(p + 1))
    } else {
        seq![s]
    }
}

/// Splits a comma-separated device list into its pieces.
pub fn split_devices(s: &[u8]) -> (r: Vec<Vec<u8>>)
    ensures
        r@.map_values(|v: Vec<u8>| v@) == split_commas(s@),
{
    let mut out: Vec<Vec<u8>> = Vec::new();
    let mut start: usize = 0;
    let mut i: usize = 0;
    proof {
        assert(s@.skip(0) =~= s@);
        assert(out@.map_values(|v: Vec<u8>| v@) + split_commas(s@) =~= split_commas(s@));
    }
    while i < s.len()
        invariant
            0 <= start <= i <= s.len(),
            split_commas(s@) =~= out@.map_values(|v: Vec<u8>| v@) + split_commas(
                s@.skip(start as int),
            ),
            forall|k: int| start <= k < i ==> s@[k] != 44u8,
        decreases s.len() - i,
    {
        if s[i] == 44 {
            let tok = slice_to_vec(slice_subrange(s, start, i));
            proof {
                let rest = s@.skip(start as int);
                assert(forall|k: int| 0 <= k < rest.len() ==> rest[k] == s@[k + start]);
                lemma_first_comma_at(rest, i - start);
                assert(rest.take(i - start) =~= s@.subrange(start as int, i as int));
                assert(rest.skip(i - start + 1) =~= s@.skip(i + 1));
                assert((out@.push(tok)).map_values(|v: Vec<u8>| v@) =~= out@.map_values(
                    |v: Vec<u8>| v@,
                ).push(tok@));
                assert(out@.map_values(|v: Vec<u8>| v@) + (seq![tok@] + split_commas(s@.skip(i + 1)))
                    =~= out@.map_values(|v: Vec<u8>| v@).push(tok@) + split_commas(s@.skip(i + 1)));
            }
            out.push(tok);
            start = i + 1;
        }
        i = i + 1;
    }
    let tok = slice_to_vec(slice_subrange(s, start, s.len()));
    proof {
        let rest = s@.skip(start as int);
        assert(forall|k: int| 0 <= k < rest.len() ==> rest[k] == s@[k + start]);
        lemma_first_comma_at(rest, rest.len() as int);
        assert(rest.take(rest.len() as int) =~= rest);
        assert(tok@ =~= rest);
        assert((out@.push(tok)).map_values(|v: Vec<u8>| v@) =~= out@.map_values(
            |v: Vec<u8>| v@,
        ).push(tok@));
        assert(out@.map_values(|v: Vec<u8>| v@) + seq![rest] =~= out@.map_values(
            |v: Vec<u8>| v@,
        ).push(tok@));
    }
    out.push(tok);
    out
}

/// Reads the configured device list: a missing or empty configuration is a
/// recognized user-facing condition, not a crash, and yields nothing.
pub fn parse_device_list(s: &[u8]) -> (r: Option<Vec<Vec<u8>>>)
    ensures
        r is Some <==> s@.len() > 0,
        r is Some ==> r->0@.map_values(|v: Vec<u8>| v@) == split_commas(s@),
{
    if s.len() == 0 {
        None
    } else {
        Some(split_devices(s))
    }
}

} // verus!

//! The envelope micro-grammar: a bracket-delimited, comma-separated
//! `key=value` association list, and its sibling, a bracket-delimited
//! comma-separated list.
//!
//! Both are deliberately lenient: empty segments and pieces that do not
//! split into exactly one key and one value are silently dropped, never
//! errors, because the envelope may carry keys this client does not
//! understand.

use vstd::prelude::*;
use crate::tokens::pieces;

verus! {

/// The body of a bracket-delimited value: everything between the first and
/// the last byte.  A value too short to hold a bracket pair has an empty
/// body.
pub open spec fn inner(s: Seq<u8>) -> Seq<u8> {
    if s.len() >= 2 {
        s.subrange(1, s.len() - 1)
    } else {
        Seq::empty()
    }
}

/// The key/value pairs among the comma-separated pieces: a piece counts
/// only if splitting it at `=` and dropping empty parts leaves exactly a
/// key and a value.
pub open spec fn table_pairs(ps: Seq<Seq<u8>>) -> Seq<(Seq<u8>, Seq<u8>)>
    decreases ps.len(),
{
    if ps.len() == 0 {
        Seq::empty()
    } else {
        let rest = table_pairs(ps.drop_last());
        let parts = pieces(ps.last(), 61);
        if parts.len() == 2 {
            rest.push((parts[0], parts[1]))
        } else {
            rest
        }
    }
}

/// The association list a table value decodes to, in wire order.
pub open spec fn table_of(s: Seq<u8>) -> Seq<(Seq<u8>, Seq<u8>)> {
    table_pairs(pieces(inner(s), 44))
}

/// The entries a list value decodes to, in wire order.
pub open spec fn list_of(s: Seq<u8>) -> Seq<Seq<u8>> {
    pieces(inner(s), 44)
}

/// Strips the outer bracket pair (the first and last byte) off a value.
pub fn strip_outer(input: &[u8]) -> (r: Vec<u8>)
    ensures
        r@ == inner(input@),
{
    let mut out: Vec<u8> = Vec::new();
    if input.len() < 2 {
        proof {
            assert(out@ =~= inner(input@));
        }
        return out;
    }
    let mut i: usize = 1;
    while i < input.len() - 1
        invariant
            input.len() >= 2,
            1 <= i <= input.len() - 1,
            out@ == input@.subrange(1, i as int),
        decreases input.len() - i,
    {
        out.push(input[i]);
        proof {
            assert(out@ =~= input@.subrange(1, i + 1));
        }
        i += 1;
    }
    proof {
        assert(out@ =~= inner(input@));
    }
    out
}

/// Parses a bracket-delimited, comma-separated `key=value` association
/// list.  Empty segments are skipped; a piece without exactly one
/// non-empty key and one non-empty value is dropped, not an error.
pub fn parse_table(input: &[u8]) -> (r: Vec<(Vec<u8>, Vec<u8>)>)
    ensures
        r@.map_values(|pr: (Vec<u8>, Vec<u8>)| (pr.0@, pr.1@)) == table_of(input@),
{
    let body = strip_outer(input);
    let ps = crate::tokens::split_pieces(body.as_slice(), 44);
    let ghost psv = ps@.map_values(|p: Vec<u8>| p@);
    let mut out: Vec<(Vec<u8>, Vec<u8>)> = Vec::new();
    let mut i: usize = 0;
    while i < ps.len()
        invariant
            0 <= i <= ps.len(),
            psv == ps@.map_values(|p: Vec<u8>| p@),
            psv == pieces(inner(input@), 44),
            out@.map_values(|pr: (Vec<u8>, Vec<u8>)| (pr.0@, pr.1@)) == table_pairs(
                psv.take(i as int),
            ),
        decreases ps.len() - i,
    {
        proof {
            assert(psv.take(i + 1).drop_last() =~= psv.take(i as int));
            assert(psv.take(i + 1).last() == psv[i as int]);
        }
        let mut parts = crate::tokens::split_pieces(ps[i].as_slice(), 61);
        if parts.len() == 2 {
            let value = parts.pop().unwrap();
            let key = parts.pop().unwrap();
            out.push((key, value));
            proof {
                assert(out@.map_values(|pr: (Vec<u8>, Vec<u8>)| (pr.0@, pr.1@)) =~= table_pairs(
                    psv.take(i + 1),
                ));
            }
        }
        i += 1;
    }
    proof {
        assert(psv.take(psv.len() as int) =~= psv);
    }
    out
}

/// Parses a bracket-delimited, comma-separated list of entries; empty
/// pieces are skipped.
pub fn parse_list(input: &[u8]) -> (r: Vec<Vec<u8>>)
    ensures
        r@.map_values(|p: Vec<u8>| p@) == list_of(input@),
{
    let body = strip_outer(input);
    crate::tokens::split_pieces(body.as_slice(), 44)
}

/// Byte-for-byte equality of two byte strings.
pub fn bytes_eq(a: &[u8], b: &[u8]) -> (r: bool)
    ensures
        r == (a@ == b@),
{
    if a.len() != b.len() {
        proof {
            assert(a@ != b@);
        }
        return false;
    }
    let mut i: usize = 0;
    while i < a.len()
        invariant
            0 <= i <= a.len(),
            a.len() == b.len(),
            forall|k: int| 0 <= k < i ==> a@[k] == b@[k],
        decreases a.len() - i,
    {
        if a[i] != b[i] {
            proof {
                assert(a@[i as int] != b@[i as int]);
            }
            return false;
        }
        i += 1;
    }
    proof {
        assert(a@ =~= b@);
    }
    true
}

} // verus!

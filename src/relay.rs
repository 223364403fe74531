use vstd::prelude::*;
use crate::protocol::IdType;

verus! {

/// The ASCII decimal digits of `n`, most significant first.
pub open spec fn decimal(n: nat) -> Seq<u8>
    decreases n,
{
    if n < 10 {
        seq![(48 + n) as u8]
    } else {
        decimal(n / 10).push((48 + n % 10) as u8)
    }
}

/// Appends the decimal form of `n` to `out`.
pub fn push_decimal(n: IdType, out: &mut Vec<u8>)
    ensures
        final(out)@ == old(out)@ + decimal(n as nat),
    decreases n,
{
    if n >= 10 {
        push_decimal(n / 10, out);
    }
    out.push((48 + n % 10) as u8);
    proof {
        assert(final(out)@ =~= old(out)@ + decimal(n as nat));
    }
}

/// The bytes of `"sender":`, the key of a payload's leading field.
pub open spec fn sender_key() -> Seq<u8> {
    seq![34u8, 115u8, 101u8, 110u8, 100u8, 101u8, 114u8, 34u8, 58u8]
}

/// Where a string value whose text starts at `i` ends: just past its closing
/// quote, a quote after a backslash not counting; the end of `d` if unclosed.
pub open spec fn string_end(d: Seq<u8>, i: int) -> int
    decreases d.len() - i,
{
    if i >= d.len() || i < 0 {
        d.len() as int
    } else if d[i] == 34 {
        i + 1
    } else if d[i] == 92 {
        if i + 1 >= d.len() {
            d.len() as int
        } else {
            string_end(d, i + 2)
        }
    } else {
        string_end(d, i + 1)
    }
}

/// Where a bare value starting at `i` ends: at the first comma or closing
/// brace, or at the end of `d`.
pub open spec fn token_end(d: Seq<u8>, i: int) -> int
    decreases d.len() - i,
{
    if i >= d.len() || i < 0 {
        d.len() as int
    } else if d[i] == 44 || d[i] == 125 {
        i
    } else {
        token_end(d, i + 1)
    }
}

/// Where the payload's own fields start once a sender field that the client
/// put first (right after the opening brace) is dropped, with its comma.
pub open spec fn claimed_end(d: Seq<u8>) -> int {
    if d.len() >= 10 && d.subrange(1, 10) == sender_key() {
        let v_end = if 10 < d.len() && d[10] == 34 {
            string_end(d, 11)
        } else {
            token_end(d, 10)
        };
        if v_end < d.len() && d[v_end] == 44 {
            v_end + 1
        } else {
            v_end
        }
    } else {
        1
    }
}

/// A payload is a record: it starts with an opening brace.
pub open spec fn is_record(d: Seq<u8>) -> bool {
    d.len() > 0 && d[0] == 123
}

/// The payload with `sender` as its leading field, in place of whatever
/// sender the client claimed; the other fields are kept byte for byte.
pub open spec fn stamped(sender: nat, d: Seq<u8>) -> Seq<u8> {
    let rest = d.skip(claimed_end(d));
    let head = seq![123u8] + sender_key() + seq![34u8] + decimal(sender) + seq![34u8];
    if rest.len() > 0 && rest[0] == 125 {
        head + rest
    } else {
        head + seq![44u8] + rest
    }
}

fn push_sender_key(out: &mut Vec<u8>)
    ensures
        final(out)@ == old(out)@ + sender_key(),
{
    out.push(34);
    out.push(115);
    out.push(101);
    out.push(110);
    out.push(100);
    out.push(101);
    out.push(114);
    out.push(34);
    out.push(58);
    proof {
        assert(final(out)@ =~= old(out)@ + sender_key());
    }
}

fn string_end_at(d: &Vec<u8>, start: usize) -> (r: usize)
    requires
        start <= d@.len(),
    ensures
        r == string_end(d@, start as int),
        start <= r <= d@.len(),
{
    let mut i = start;
    while i < d.len() && d[i] != 34
        invariant
            string_end(d@, i as int) == string_end(d@, start as int),
            start <= i <= d@.len(),
        decreases d.len() - i,
    {
        if d[i] == 92 {
            if i + 1 < d.len() {
                i = i + 2;
            } else {
                i = d.len();
            }
        } else {
            i = i + 1;
        }
    }
    if i < d.len() {
        i + 1
    } else {
        d.len()
    }
}

fn token_end_at(d: &Vec<u8>, start: usize) -> (r: usize)
    requires
        start <= d@.len(),
    ensures
        r == token_end(d@, start as int),
        start <= r <= d@.len(),
{
    let mut i = start;
    while i < d.len() && d[i] != 44 && d[i] != 125
        invariant
            token_end(d@, i as int) == token_end(d@, start as int),
            start <= i <= d@.len(),
        decreases d.len() - i,
    {
        i = i + 1;
    }
    if i < d.len() {
        i
    } else {
        d.len()
    }
}

fn claimed_end_of(d: &Vec<u8>) -> (r: usize)
    requires
        is_record(d@),
    ensures
        r == claimed_end(d@),
        1 <= r <= d@.len(),
{
    let keyed = d.len() >= 10 && d[1] == 34 && d[2] == 115 && d[3] == 101 && d[4] == 110 && d[5] == 100
        && d[6] == 101 && d[7] == 114 && d[8] == 34 && d[9] == 58;
    proof {
        if d@.len() >= 10 {
            assert(keyed == (d@.subrange(1, 10) =~= sender_key()));
        }
    }
    if !keyed {
        return 1;
    }
    let v_end = if 10 < d.len() && d[10] == 34 {
        string_end_at(d, 11)
    } else {
        token_end_at(d, 10)
    };
    if v_end < d.len() && d[v_end] == 44 {
        v_end + 1
    } else {
        v_end
    }
}

/// The payload `d` stamped with its authoritative sender, or `None` when `d`
/// is not a record.
pub fn stamp_sender(sender: IdType, d: &Vec<u8>) -> (r: Option<Vec<u8>>)
    ensures
        r is Some <==> is_record(d@),
        r matches Some(v) ==> v@ == stamped(sender as nat, d@),
{
    if d.len() == 0 || d[0] != 123 {
        return None;
    }
    let start = claimed_end_of(d);
    let mut out: Vec<u8> = Vec::new();
    out.push(123);
    push_sender_key(&mut out);
    out.push(34);
    push_decimal(sender, &mut out);
    out.push(34);
    if !(start < d.len() && d[start] == 125) {
        out.push(44);
    }
    let ghost head = out@;
    let mut i = start;
    while i < d.len()
        invariant
            start <= i <= d@.len(),
            out@ == head + d@.subrange(start as int, i as int),
        decreases d.len() - i,
    {
        out.push(d[i]);
        i = i + 1;
        proof {
            assert(out@ =~= head + d@.subrange(start as int, i as int));
        }
    }
    proof {
        let rest = d@.skip(claimed_end(d@));
        assert(d@.subrange(start as int, d@.len() as int) =~= rest);
        assert(out@ =~= stamped(sender as nat, d@));
    }
    Some(out)
}

/// A copy of `v`.
pub fn copy_bytes(v: &Vec<u8>) -> (r: Vec<u8>)
    ensures
        r@ == v@,
{
    let mut r: Vec<u8> = Vec::new();
    let mut i: usize = 0;
    while i < v.len()
        invariant
            i <= v@.len(),
            r@ == v@.take(i as int),
        decreases v.len() - i,
    {
        r.push(v[i]);
        i += 1;
        proof {
            assert(r@ =~= v@.take(i as int));
        }
    }
    proof {
        assert(v@.take(v@.len() as int) =~= v@);
    }
    r
}

} // verus!

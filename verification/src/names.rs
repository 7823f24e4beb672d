//! Table file names: `L{level}_{id:06}.sst`. The id of a table is read back
//! from the stem of its file name (the name without its extension): the
//! part after the first `_`, up to the next `_`, as a decimal `u64`.
use vstd::prelude::*;

verus! {

/// The value of a run of decimal digits.
pub open spec fn digits_value(d: Seq<u8>) -> nat
    decreases d.len(),
{
    if d.len() == 0 {
        0
    } else {
        digits_value(d.drop_last()) * 10 + (d.last() - 48) as nat
    }
}

/// Every byte is an ASCII digit.
pub open spec fn all_digits(d: Seq<u8>) -> bool {
    forall|i: int| 0 <= i < d.len() ==> 48 <= #[trigger] d[i] <= 57
}

/// What `str::parse::<u64>` gives for these bytes: an optional `+`, then
/// at least one digit and nothing else, with a value that fits 64 bits.
pub open spec fn parsed_u64(s: Seq<u8>) -> Option<u64> {
    let d = if s.len() > 0 && s[0] == 43 {
        s.drop_first()
    } else {
        s
    };
    if d.len() > 0 && all_digits(d) && digits_value(d) <= u64::MAX {
        Some(digits_value(d) as u64)
    } else {
        None
    }
}

/// The second `_`-separated field of a name: the bytes after the first
/// `_`, up to the next `_` or the end; `None` where there is no `_`.
pub open spec fn second_field(s: Seq<u8>) -> Option<Seq<u8>> {
    if exists|i: int| 0 <= i < s.len() && s[i] == 95 {
        let i = first_index_of(s, 95);
        let rest = s.skip(i + 1);
        if exists|j: int| 0 <= j < rest.len() && rest[j] == 95 {
            Some(rest.take(first_index_of(rest, 95)))
        } else {
            Some(rest)
        }
    } else {
        None
    }
}

/// The first position of byte `b` in `s` (where it occurs).
pub open spec fn first_index_of(s: Seq<u8>, b: u8) -> int {
    choose|i: int| 0 <= i < s.len() && s[i] == b && forall|j: int| 0 <= j < i ==> s[j] != b
}

/// The table id that a file stem carries.
pub open spec fn stem_id(stem: Seq<u8>) -> Option<u64> {
    match second_field(stem) {
        Some(f) => parsed_u64(f),
        None => None,
    }
}

/// Parses a decimal `u64` as `str::parse::<u64>` does.
pub fn parse_u64(s: &[u8]) -> (r: Option<u64>)
    ensures
        r == parsed_u64(s@),
{
    let mut start: usize = 0;
    if s.len() > 0 && s[0] == 43u8 {
        start = 1;
    }
    let ghost d = if s@.len() > 0 && s@[0] == 43 {
        s@.drop_first()
    } else {
        s@
    };
    proof {
        assert(d =~= s@.skip(start as int));
    }
    if start == s.len() {
        return None;
    }
    let mut value: u64 = 0;
    let mut i: usize = start;
    while i < s.len()
        invariant
            start <= i <= s@.len(),
            d == s@.skip(start as int),
            d == (if s@.len() > 0 && s@[0] == 43 { s@.drop_first() } else { s@ }),
            d.len() > 0,
            all_digits(d.take(i - start)),
            value == digits_value(d.take(i - start)),
        decreases s@.len() - i,
    {
        let c = s[i];
        proof {
            assert(d.take(i - start + 1).drop_last() =~= d.take(i - start));
            assert(d.take(i - start + 1).last() == c);
        }
        if c < 48u8 || c > 57u8 {
            proof {
                assert(d[i - start] == c);
                assert(!all_digits(d));
                assert(parsed_u64(s@) is None);
            }
            return None;
        }
        let digit = (c - 48u8) as u64;
        if value > (u64::MAX - digit) / 10 {
            proof {
                assert(all_digits(d.take(i - start + 1)));
                if all_digits(d) {
                    lemma_digits_value_grows(d, (i - start + 1) as int);
                }
                assert(digits_value(d.take(i - start + 1)) == value * 10 + digit) by (nonlinear_arith)
                    requires
                        digits_value(d.take(i - start + 1)) == digits_value(d.take(i - start)) * 10 + digit,
                        value == digits_value(d.take(i - start)),
                ;
                assert(value * 10 + digit > u64::MAX) by (nonlinear_arith)
                    requires
                        value > (u64::MAX - digit) / 10,
                        digit <= 9,
                ;
            }
            return None;
        }
        proof {
            assert(value * 10 + digit <= u64::MAX) by (nonlinear_arith)
                requires
                    value <= (u64::MAX - digit) / 10,
                    digit <= 9,
            ;
        }
        value = value * 10 + digit;
        i = i + 1;
    }
    proof {
        assert(d.take(i - start) =~= d);
    }
    Some(value)
}

/// Once a prefix of the digits overflows, the whole run does.
proof fn lemma_digits_value_grows(d: Seq<u8>, k: int)
    requires
        0 <= k <= d.len(),
        all_digits(d),
    ensures
        digits_value(d) >= digits_value(d.take(k)),
    decreases d.len(),
{
    if k < d.len() {
        assert(d.drop_last().take(k) =~= d.take(k));
        assert(all_digits(d.drop_last()));
        lemma_digits_value_grows(d.drop_last(), k);
    } else {
        assert(d.take(k) =~= d);
    }
}

/// The position of the first `_` in `s` from `from` on, or the end.
fn find_underscore(s: &[u8], from: usize) -> (r: usize)
    requires
        from <= s@.len(),
    ensures
        from <= r <= s@.len(),
        r < s@.len() ==> s@[r as int] == 95,
        forall|j: int| from <= j < r ==> s@[j] != 95,
{
    let mut i = from;
    while i < s.len()
        invariant
            from <= i <= s@.len(),
            forall|j: int| from <= j < i ==> s@[j] != 95,
        decreases s@.len() - i,
    {
        if s[i] == 95u8 {
            return i;
        }
        i = i + 1;
    }
    i
}

/// The table id that the stem of a table file name carries, as the store
/// reads it back when it reopens: the second `_`-separated field, parsed
/// as a decimal `u64`.
pub fn sst_id_of_stem(stem: &[u8]) -> (r: Option<u64>)
    ensures
        r == stem_id(stem@),
{
    let i = find_underscore(stem, 0);
    if i == stem.len() {
        return None;
    }
    proof {
        assert(first_index_of(stem@, 95) == i) by {
            let k = first_index_of(stem@, 95);
            assert(stem@[i as int] == 95 && forall|j: int| 0 <= j < i ==> stem@[j] != 95);
            if k < i {
            } else if k > i {
            }
        }
    }
    let j = find_underscore(stem, i + 1);
    let field = vstd::slice::slice_subrange(stem, i + 1, j);
    proof {
        let rest = stem@.skip(i + 1);
        if j < stem.len() {
            assert(rest[j - i - 1] == 95);
            assert(first_index_of(rest, 95) == j - i - 1) by {
                let k = first_index_of(rest, 95);
                assert(rest[j - i - 1] == 95 && forall|q: int| 0 <= q < j - i - 1 ==> rest[q] != 95);
            }
            assert(field@ =~= rest.take(j - i - 1));
        } else {
            assert(!(exists|q: int| 0 <= q < rest.len() && rest[q] == 95)) by {
                assert forall|q: int| 0 <= q < rest.len() implies rest[q] != 95 by {
                    assert(rest[q] == stem@[q + i + 1]);
                }
            }
            assert(field@ =~= rest);
        }
    }
    parse_u64(field)
}

/// The decimal digits of a number, without leading zeros ("0" for zero).
pub open spec fn decimal(n: nat) -> Seq<u8>
    decreases n,
{
    if n < 10 {
        seq![(48 + n) as u8]
    } else {
        decimal(n / 10).push((48 + n % 10) as u8)
    }
}

/// Digits padded on the left with zeros to at least `width` digits.
pub open spec fn zero_pad(d: Seq<u8>, width: nat) -> Seq<u8> {
    if d.len() >= width {
        d
    } else {
        Seq::new((width - d.len()) as nat, |i: int| 48u8) + d
    }
}

/// The stem of the name of the table file with this level and id:
/// `L{level}_{id:06}`.
pub open spec fn sst_file_stem(level: nat, id: nat) -> Seq<u8> {
    seq![76u8] + decimal(level) + seq![95u8] + zero_pad(decimal(id), 6)
}

/// The name of the table file with this level and id: `L{level}_{id:06}.sst`.
pub open spec fn sst_file_name_spec(level: nat, id: nat) -> Seq<u8> {
    sst_file_stem(level, id) + seq![46u8, 115u8, 115u8, 116u8]
}

/// Appends the decimal digits of `n`.
fn push_decimal(out: &mut Vec<u8>, n: u64)
    ensures
        final(out)@ == old(out)@ + decimal(n as nat),
    decreases n,
{
    if n >= 10 {
        push_decimal(out, n / 10);
    }
    out.push(48u8 + (n % 10) as u8);
    proof {
        if n < 10 {
            assert(decimal(n as nat) =~= seq![(48 + n) as u8]);
        }
    }
}

/// The name of the table file with this level and id: `L{level}_{id:06}.sst`.
pub fn sst_file_name(level: usize, id: u64) -> (r: Vec<u8>)
    ensures
        r@ == sst_file_name_spec(level as nat, id as nat),
{
    let mut out: Vec<u8> = Vec::new();
    out.push(76u8);
    push_decimal(&mut out, level as u64);
    out.push(95u8);
    let mut digits: Vec<u8> = Vec::new();
    push_decimal(&mut digits, id);
    let mut k = digits.len();
    while k < 6
        invariant
            digits.len() <= k,
            k <= 6 || k == digits.len(),
            out@ == seq![76u8] + decimal(level as nat) + seq![95u8] + Seq::new((k - digits@.len()) as nat, |i: int| 48u8),
            digits@ == Seq::<u8>::empty() + decimal(id as nat),
        decreases 6 - k,
    {
        out.push(48u8);
        assert(Seq::new((k + 1 - digits@.len()) as nat, |i: int| 48u8) =~= Seq::new((k - digits@.len()) as nat, |i: int| 48u8).push(48u8));
        k = k + 1;
    }
    out.append(&mut digits);
    out.push(46u8);
    out.push(115u8);
    out.push(115u8);
    out.push(116u8);
    proof {
        let d = decimal(id as nat);
        assert(Seq::<u8>::empty() + d =~= d);
        if d.len() >= 6 {
            assert(Seq::new(0nat, |i: int| 48u8) =~= Seq::<u8>::empty());
        }
        assert(out@ =~= sst_file_name_spec(level as nat, id as nat));
    }
    out
}

/// Decimal digits are digits, and they read back as their number.
proof fn lemma_decimal(n: nat)
    ensures
        all_digits(decimal(n)),
        digits_value(decimal(n)) == n,
        decimal(n).len() > 0,
    decreases n,
{
    if n < 10 {
        let d = decimal(n);
        assert((48 + n) as u8 == 48 + n);
        assert(d.drop_last() =~= Seq::<u8>::empty());
        assert(digits_value(d) == digits_value(d.drop_last()) * 10 + (d.last() - 48) as nat);
    }
    if n >= 10 {
        lemma_decimal(n / 10);
        let d = decimal(n);
        assert(d.drop_last() =~= decimal(n / 10));
        assert(d.last() == (48 + n % 10) as u8);
        assert(0 <= n % 10 < 10);
        assert((48 + n % 10) as u8 == 48 + n % 10);
        assert((d.last() - 48) as nat == n % 10);
        assert(digits_value(d) == digits_value(decimal(n / 10)) * 10 + n % 10);
        assert((n / 10) * 10 + n % 10 == n) by (nonlinear_arith);
        assert forall|i: int| 0 <= i < d.len() implies 48 <= #[trigger] d[i] <= 57 by {
            if i < d.len() - 1 {
                assert(d[i] == decimal(n / 10)[i]);
            }
        }
    }
}

/// Leading zeros do not change the value of digits.
proof fn lemma_leading_zeros(z: nat, d: Seq<u8>)
    ensures
        digits_value(Seq::new(z, |i: int| 48u8) + d) == digits_value(d),
        all_digits(d) ==> all_digits(Seq::new(z, |i: int| 48u8) + d),
    decreases d.len(), z,
{
    let p = Seq::new(z, |i: int| 48u8) + d;
    if d.len() > 0 {
        lemma_leading_zeros(z, d.drop_last());
        assert(p.drop_last() =~= Seq::new(z, |i: int| 48u8) + d.drop_last());
    } else if z > 0 {
        lemma_leading_zeros((z - 1) as nat, d);
        assert(p.drop_last() =~= Seq::new((z - 1) as nat, |i: int| 48u8) + d);
    } else {
        assert(p =~= d);
    }
    if all_digits(d) {
        assert forall|i: int| 0 <= i < p.len() implies 48 <= #[trigger] p[i] <= 57 by {
            if i >= z {
                assert(p[i] == d[i - z]);
            }
        }
    }
}

/// The id in a table file's name reads back: when the store reopens, it
/// finds in each table file's stem the id that the file was named with.
pub proof fn lemma_file_name_id(level: nat, id: u64)
    ensures
        stem_id(sst_file_stem(level, id as nat)) == Some(id),
{
    let dl = decimal(level);
    let di = decimal(id as nat);
    lemma_decimal(level);
    lemma_decimal(id as nat);
    let pad = zero_pad(di, 6);
    if di.len() < 6 {
        lemma_leading_zeros((6 - di.len()) as nat, di);
    }
    let s = sst_file_stem(level, id as nat);
    let u = 1 + dl.len() as int;
    assert(s[u] == 95);
    assert forall|j: int| 0 <= j < u implies s[j] != 95 by {
        if j > 0 {
            assert(s[j] == dl[j - 1]);
        }
    }
    assert(first_index_of(s, 95) == u) by {
        let k = first_index_of(s, 95);
        assert(s[u] == 95 && forall|j: int| 0 <= j < u ==> s[j] != 95);
    }
    let rest = s.skip(u + 1);
    assert(rest =~= pad);
    assert(!(exists|j: int| 0 <= j < rest.len() && rest[j] == 95)) by {
        assert forall|j: int| 0 <= j < rest.len() implies rest[j] != 95 by {
            assert(48 <= pad[j] <= 57);
        }
    }
    assert(pad[0] != 43) by {
        assert(48 <= pad[0] <= 57);
    }
}

} // verus!

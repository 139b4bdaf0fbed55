use vstd::prelude::*;

verus! {

pub open spec fn is_digit(c: u8) -> bool {
    48 <= c <= 57
}

/// The byte at index `i`, or 0 past the end.
pub open spec fn byte_at(s: Seq<u8>, i: int) -> u8 {
    if 0 <= i < s.len() {
        s[i]
    } else {
        0
    }
}

/// Reads the run of decimal digits that starts at index `i`, on top of the value `acc`
/// read so far: the number, and the index of the first byte that is no digit.
pub open spec fn scan_digits(s: Seq<u8>, i: int, acc: nat) -> (nat, int)
    decreases s.len() - i,
{
    if 0 <= i < s.len() && is_digit(s[i]) {
        scan_digits(s, i + 1, (acc * 10 + (s[i] - 48)) as nat)
    } else {
        (acc, i)
    }
}

/// The decimal digits of `n`, most significant first, without leading zeros.
pub open spec fn decimal(n: nat) -> Seq<u8>
    decreases n,
{
    if n < 10 {
        seq![(48 + n) as u8]
    } else {
        decimal(n / 10).push((48 + n % 10) as u8)
    }
}

pub proof fn lemma_scan_grows(s: Seq<u8>, i: int, acc: nat)
    ensures
        scan_digits(s, i, acc).0 >= acc,
        i <= scan_digits(s, i, acc).1 <= s.len() || !(0 <= i < s.len()),
        !is_digit(byte_at(s, scan_digits(s, i, acc).1)),
    decreases s.len() - i,
{
    if 0 <= i < s.len() && is_digit(s[i]) {
        lemma_scan_grows(s, i + 1, (acc * 10 + (s[i] - 48)) as nat);
    }
}

pub(crate) fn digit(c: u8) -> (r: bool)
    ensures
        r == is_digit(c),
{
    48 <= c && c <= 57
}

/// Reads the digits at `i`. The number comes back only where it is at most `limit`.
pub(crate) fn read_number(s: &[u8], i: usize, limit: u64) -> (r: (Option<u64>, usize))
    requires
        i <= s.len(),
    ensures
        r.1 as int == scan_digits(s@, i as int, 0).1,
        i <= r.1 <= s.len(),
        r.0 is Some == (scan_digits(s@, i as int, 0).0 <= limit),
        r.0 matches Some(n) ==> n as nat == scan_digits(s@, i as int, 0).0,
{
    let mut j: usize = i;
    let mut acc: u64 = 0;
    let mut over = false;
    let ghost mut spec_acc: nat = 0;
    while j < s.len() && digit(s[j])
        invariant
            i <= j <= s.len(),
            scan_digits(s@, i as int, 0) == scan_digits(s@, j as int, spec_acc),
            !over ==> acc as nat == spec_acc,
            over ==> spec_acc > u64::MAX,
        decreases s.len() - j,
    {
        let d: u64 = (s[j] - 48) as u64;
        proof {
            spec_acc = (spec_acc * 10 + d) as nat;
        }
        if !over {
            if acc > (u64::MAX - d) / 10 {
                over = true;
            } else {
                acc = acc * 10 + d;
            }
        }
        j += 1;
    }
    if over || acc > limit {
        (None, j)
    } else {
        (Some(acc), j)
    }
}

/// Appends the decimal digits of `n`.
pub(crate) fn write_number(n: u64, out: &mut Vec<u8>)
    ensures
        final(out)@ == old(out)@ + decimal(n as nat),
    decreases n,
{
    if n < 10 {
        out.push(48 + n as u8);
        assert(final(out)@ =~= old(out)@ + decimal(n as nat));
    } else {
        write_number(n / 10, out);
        out.push(48 + (n % 10) as u8);
        assert(out@ =~= old(out)@ + decimal(n as nat));
    }
}

} // verus!

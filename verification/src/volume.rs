//! Names of the volumes of a multi-volume archive.

use vstd::prelude::*;
use vstd::slice::slice_subrange;
use crate::error::RarError;
use crate::util::bytes_eq;

verus! {

/// Whether a byte is an ASCII decimal digit.
pub open spec fn is_digit(b: u8) -> bool {
    0x30 <= b <= 0x39
}

/// The extension `.rar` that ends the path of a volume.
pub open spec fn rar_extension() -> Seq<u8> {
    seq![0x2Eu8, 0x72u8, 0x61u8, 0x72u8]
}

/// The decimal digits at the end of `s` start at `k`: from there on all
/// bytes are digits, and the byte before is none.
pub open spec fn is_number_start(s: Seq<u8>, k: int) -> bool {
    &&& 0 <= k <= s.len()
    &&& forall|i: int| k <= i < s.len() ==> is_digit(s[i])
    &&& k == 0 || !is_digit(s[k - 1])
}

/// `n` times the digit zero.
pub open spec fn zeros(n: nat) -> Seq<u8> {
    Seq::new(n, |i: int| 0x30u8)
}

/// The decimal number that follows the one written in `digits`, in as many
/// digits; only the successor of a run of nines takes one digit more.
pub open spec fn successor(digits: Seq<u8>) -> Seq<u8>
    decreases digits.len(),
{
    if digits.len() == 0 {
        seq![0x31u8]
    } else if digits.last() != 0x39 {
        digits.drop_last().push((digits.last() + 1) as u8)
    } else {
        successor(digits.drop_last()).push(0x30u8)
    }
}

/// The path of the volume that follows the volume at `path`: the decimal
/// number that stands before the extension `.rar` is replaced by its
/// successor. A path without that extension, or without a digit before it,
/// is malformed.
pub open spec fn spec_next_volume_path(path: Seq<u8>) -> Result<Seq<u8>, RarError> {
    let n = path.len() as int;
    if n < 4 || path.skip(n - 4) != rar_extension() {
        Err(RarError::VolumeNameMalformed)
    } else {
        let stem = path.take(n - 4);
        let k = choose|k: int| is_number_start(stem, k);
        if k == stem.len() {
            Err(RarError::VolumeNameMalformed)
        } else {
            Ok(stem.take(k) + successor(stem.skip(k)) + rar_extension())
        }
    }
}

/// The trailing number of a byte string starts at one place only.
pub proof fn lemma_number_start_unique(s: Seq<u8>, a: int, b: int)
    requires
        is_number_start(s, a),
        is_number_start(s, b),
    ensures
        a == b,
{
    if a < b {
        assert(is_digit(s[b - 1]));
    } else if b < a {
        assert(is_digit(s[a - 1]));
    }
}

/// The successor keeps the number of digits, unless all of them are nines.
pub proof fn lemma_successor_len(digits: Seq<u8>)
    ensures
        successor(digits).len() == if forall|i: int| 0 <= i < digits.len() ==> digits[i] == 0x39 {
            digits.len() + 1
        } else {
            digits.len()
        },
    decreases digits.len(),
{
    if digits.len() > 0 {
        let shorter = digits.drop_last();
        lemma_successor_len(shorter);
        if digits.last() == 0x39 {
            if forall|i: int| 0 <= i < shorter.len() ==> shorter[i] == 0x39 {
                assert forall|i: int| 0 <= i < digits.len() implies digits[i] == 0x39 by {
                    if i < shorter.len() {
                        assert(shorter[i] == digits[i]);
                    }
                }
            } else {
                let w = choose|i: int| 0 <= i < shorter.len() && shorter[i] != 0x39;
                assert(digits[w] == shorter[w]);
            }
        }
    }
}

/// Appends `n` times the digit zero.
fn push_zeros(out: &mut Vec<u8>, n: usize)
    ensures
        final(out)@ == old(out)@ + zeros(n as nat),
{
    let mut i: usize = 0;
    assert(old(out)@ + zeros(0) =~= old(out)@);
    while i < n
        invariant
            i <= n,
            out@ == old(out)@ + zeros(i as nat),
        decreases n - i,
    {
        out.push(0x30);
        i += 1;
        assert(out@ =~= old(out)@ + zeros(i as nat));
    }
}

/// Where the decimal digits at the end of `s` start.
fn number_start(s: &[u8]) -> (k: usize)
    ensures
        is_number_start(s@, k as int),
{
    let mut k: usize = s.len();
    while k > 0 && 0x30 <= s[k - 1] && s[k - 1] <= 0x39
        invariant
            k <= s@.len(),
            forall|i: int| k <= i < s@.len() ==> is_digit(s@[i]),
        decreases k,
    {
        k -= 1;
    }
    k
}

/// Writes the decimal number that follows the one written in `digits`.
fn increment(digits: &[u8]) -> (r: Vec<u8>)
    requires
        forall|i: int| 0 <= i < digits@.len() ==> is_digit(digits@[i]),
    ensures
        r@ == successor(digits@),
{
    let n = digits.len();
    let mut i: usize = n;
    assert(digits@.take(n as int) =~= digits@);
    assert(successor(digits@) =~= successor(digits@) + zeros(0));
    while i > 0 && digits[i - 1] == 0x39
        invariant
            i <= n,
            n == digits@.len(),
            successor(digits@) == successor(digits@.take(i as int)) + zeros((n - i) as nat),
        decreases i,
    {
        proof {
            let run = digits@.take(i as int);
            assert(run.last() == 0x39);
            assert(run.drop_last() =~= digits@.take(i - 1));
            assert(successor(run.drop_last()).push(0x30u8) + zeros((n - i) as nat) =~= successor(
                run.drop_last(),
            ) + zeros((n - i + 1) as nat));
        }
        i -= 1;
    }
    let mut out: Vec<u8> = Vec::new();
    if i == 0 {
        out.push(0x31);
        assert(out@ =~= successor(digits@.take(0)));
    } else {
        let head = slice_subrange(digits, 0, i - 1);
        out.extend_from_slice(head);
        let digit: u8 = digits[i - 1];
        assert(is_digit(digits@[i - 1]));
        out.push(digit + 1);
        proof {
            let run = digits@.take(i as int);
            assert(run.last() == digit);
            assert(run.drop_last() =~= head@);
            assert(out@ =~= successor(run));
        }
    }
    push_zeros(&mut out, n - i);
    out
}

/// Computes the path of the volume that follows the volume at `path`.
pub fn next_volume_path(path: &[u8]) -> (r: Result<Vec<u8>, RarError>)
    ensures
        match spec_next_volume_path(path@) {
            Ok(next) => r matches Ok(found) && found@ == next,
            Err(e) => r matches Err(e2) && e2 == e,
        },
{
    let n = path.len();
    let extension: [u8; 4] = [0x2E, 0x72, 0x61, 0x72];
    assert(extension@ =~= rar_extension());
    if n < 4 {
        return Err(RarError::VolumeNameMalformed);
    }
    let tail = slice_subrange(path, n - 4, n);
    assert(tail@ =~= path@.skip(n - 4));
    if !bytes_eq(tail, extension.as_slice()) {
        return Err(RarError::VolumeNameMalformed);
    }
    let stem = slice_subrange(path, 0, n - 4);
    assert(stem@ =~= path@.take(n - 4));
    let start = number_start(stem);
    proof {
        let k = choose|k: int| is_number_start(stem@, k);
        lemma_number_start_unique(stem@, k, start as int);
    }
    if start == stem.len() {
        return Err(RarError::VolumeNameMalformed);
    }
    let digits = slice_subrange(stem, start, stem.len());
    assert(digits@ =~= stem@.skip(start as int));
    let head = slice_subrange(stem, 0, start);
    assert(head@ =~= stem@.take(start as int));
    let next = increment(digits);
    let mut out: Vec<u8> = Vec::new();
    out.extend_from_slice(head);
    out.extend_from_slice(next.as_slice());
    out.extend_from_slice(extension.as_slice());
    Ok(out)
}

} // verus!

//! Reading interferogram file names: the `YYYYMMDD_YYYYMMDD` date pair of a
//! master and a slave acquisition.
use vstd::prelude::*;

verus! {

pub open spec fn is_digit(b: u8) -> bool {
    48 <= b <= 57
}

/// `s[start..start + n]` are all ASCII digits.
pub open spec fn digits(s: Seq<u8>, start: int, n: int) -> bool {
    forall|k: int| start <= k < start + n ==> is_digit(#[trigger] s[k])
}

/// A date pair starts at `i`: eight digits, an underscore, eight digits.
pub open spec fn pair_at(s: Seq<u8>, i: int) -> bool {
    &&& 0 <= i
    &&& i + 17 <= s.len()
    &&& s[i + 8] == 95
    &&& digits(s, i, 8)
    &&& digits(s, i + 9, 8)
}

/// A UTF-8 text may be cut before byte `i`: it is not inside a character.
pub open spec fn char_boundary(s: Seq<u8>, i: int) -> bool {
    i == s.len() || s[i] < 0x80 || s[i] >= 0xC0
}

/// Every candidate pair, an underscore after eight bytes, can be cut out of
/// the text as the characters it spans.
pub open spec fn candidates_cut_cleanly(s: Seq<u8>) -> bool {
    forall|i: int|
        0 <= i && i + 17 <= s.len() && #[trigger] s[i + 8] == 95 ==> char_boundary(s, i) && char_boundary(
            s,
            i + 17,
        )
}

fn digits_at(name: &[u8], start: usize) -> (r: bool)
    requires
        start + 8 <= name@.len(),
    ensures
        r == digits(name@, start as int, 8),
{
    let n = name.len();
    let mut k: usize = 0;
    while k < 8
        invariant
            k <= 8,
            n == name@.len(),
            start + 8 <= name@.len(),
            digits(name@, start as int, k as int),
        decreases 8 - k,
    {
        let b = name[start + k];
        if b < 48 || b > 57 {
            return false;
        }
        k = k + 1;
    }
    true
}

/// Where the first date pair of `name` starts (see `pair_at`), or `None`
/// when it holds none.
pub fn pair_dates(name: &[u8]) -> (r: Option<usize>)
    requires
        candidates_cut_cleanly(name@),
    ensures
        r matches Some(i) ==> pair_at(name@, i as int) && forall|j: int| 0 <= j < i ==> !pair_at(name@, j),
        r is None ==> forall|j: int| !pair_at(name@, j),
{
    let n = name.len();
    if n < 17 {
        return None;
    }
    let mut i: usize = 0;
    while i <= n - 17
        invariant
            n == name@.len(),
            n >= 17,
            i <= n - 16,
            forall|j: int| 0 <= j < i ==> !pair_at(name@, j),
        decreases n - 16 - i,
    {
        if name[i + 8] == 95 && digits_at(name, i) && digits_at(name, i + 9) {
            return Some(i);
        }
        i = i + 1;
    }
    None
}

} // verus!

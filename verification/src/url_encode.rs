//! Percent-escaping of raw bytes for tracker query parameters.
use vstd::prelude::*;

use crate::digits::{hex_digit, hex_digit_str};

verus! {

/// Every byte escaped as '%' and two lower-case hex digits.
pub open spec fn url_chars(s: Seq<u8>) -> Seq<char> {
    Seq::new(
        3 * s.len(),
        |i: int|
            if i % 3 == 0 {
                '%'
            } else if i % 3 == 1 {
                hex_digit(s[i / 3] / 16)
            } else {
                hex_digit(s[i / 3] % 16)
            },
    )
}

/// Escapes every byte of `data` as "%xx", as the tracker's query string
/// requires for raw binary values.
pub fn url_encode(data: &[u8]) -> (r: String)
    ensures
        r@ == url_chars(data@),
{
    proof {
        reveal_strlit("%");
    }
    let n = data.len();
    let mut s = String::new();
    let mut i: usize = 0;
    while i < n
        invariant
            i <= n,
            n == data@.len(),
            s@ == url_chars(data@).take(3 * i as int),
        decreases n - i,
    {
        proof {
            reveal_strlit("%");
        }
        let b = data[i];
        s.append("%");
        s.append(hex_digit_str(b / 16));
        s.append(hex_digit_str(b % 16));
        i += 1;
        assert(s@ =~= url_chars(data@).take(3 * i as int));
    }
    assert(url_chars(data@).take(3 * n as int) =~= url_chars(data@));
    s
}

} // verus!

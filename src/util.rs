use vstd::prelude::*;

verus! {

/// The character of a decimal digit.
pub open spec fn digit_char(d: nat) -> char {
    if d == 0 {
        '0'
    } else if d == 1 {
        '1'
    } else if d == 2 {
        '2'
    } else if d == 3 {
        '3'
    } else if d == 4 {
        '4'
    } else if d == 5 {
        '5'
    } else if d == 6 {
        '6'
    } else if d == 7 {
        '7'
    } else if d == 8 {
        '8'
    } else {
        '9'
    }
}

/// The decimal digits of `n`, most significant first, with no leading zero.
pub open spec fn decimal(n: nat) -> Seq<char>
    decreases n,
{
    if n < 10 {
        seq![digit_char(n)]
    } else {
        decimal(n / 10).push(digit_char(n % 10))
    }
}

/// Relies on `ToString` for `usize` (through its `Display`): the number in
/// decimal digits.
#[verifier::external_body]
fn usize_to_string(n: usize) -> (r: String)
    ensures
        r@ == decimal(n as nat),
{
    n.to_string()
}

/// The decimal strings of `1, 2, ..., len`.
pub fn make_list_string(len: usize) -> (r: Vec<String>)
    ensures
        r@.len() == len,
        forall|i: int| 0 <= i < len ==> #[trigger] r@[i]@ == decimal((i + 1) as nat),
{
    let mut res: Vec<String> = Vec::new();
    res.reserve(len);
    let mut idx: usize = 0;
    while idx < len
        invariant
            idx <= len,
            res@.len() == idx,
            forall|i: int| 0 <= i < idx ==> #[trigger] res@[i]@ == decimal((i + 1) as nat),
        decreases len - idx,
    {
        idx = idx + 1;
        res.push(usize_to_string(idx));
    }
    res
}

/// `1, 2, ..., len`.
pub fn make_list_usize(len: usize) -> (r: Vec<usize>)
    ensures
        r@.len() == len,
        forall|i: int| 0 <= i < len ==> #[trigger] r@[i] == i + 1,
{
    let mut res: Vec<usize> = Vec::new();
    res.reserve(len);
    let mut idx: usize = 0;
    while idx < len
        invariant
            idx <= len,
            res@.len() == idx,
            forall|i: int| 0 <= i < idx ==> #[trigger] res@[i] == i + 1,
        decreases len - idx,
    {
        idx = idx + 1;
        res.push(idx);
    }
    res
}

} // verus!

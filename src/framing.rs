//! The header that frames each message on the wire: `Content-Length: <n>`.
use vstd::prelude::*;

verus! {

/// The header's name and separator, as bytes.
pub open spec fn length_prefix() -> Seq<u8> {
    seq![
        67u8, 111u8, 110u8, 116u8, 101u8, 110u8, 116u8, 45u8, 76u8, 101u8, 110u8, 103u8, 116u8,
        104u8, 58u8, 32u8,
    ]
}

pub open spec fn is_digit(b: u8) -> bool {
    48 <= b <= 57
}

/// The number that decimal digits `d` write.
pub open spec fn decimal_value(d: Seq<u8>) -> nat
    decreases d.len(),
{
    if d.len() == 0 {
        0
    } else {
        10 * decimal_value(d.drop_last()) + (d.last() - 48) as nat
    }
}

/// `line` is a `Content-Length` header: the prefix, then one or more digits.
pub open spec fn is_length_header(line: Seq<u8>) -> bool {
    &&& line.len() > length_prefix().len()
    &&& line.take(length_prefix().len() as int) == length_prefix()
    &&& forall|i: int| length_prefix().len() <= i < line.len() ==> is_digit(#[trigger] line[i])
}

pub open spec fn header_value(line: Seq<u8>) -> nat {
    decimal_value(line.skip(length_prefix().len() as int))
}

proof fn lemma_decimal_grows(d: Seq<u8>, k: int)
    requires
        0 <= k <= d.len(),
        forall|i: int| 0 <= i < d.len() ==> is_digit(#[trigger] d[i]),
    ensures
        decimal_value(d.take(k)) <= decimal_value(d),
    decreases d.len() - k,
{
    if k < d.len() {
        assert(d.drop_last().take(k) =~= d.take(k));
        lemma_decimal_grows(d.drop_last(), k);
    } else {
        assert(d.take(k) =~= d);
    }
}

/// The message length that a header line (without its line break) gives:
/// `Some(n)` when it is a `Content-Length` header whose number fits a `usize`,
/// `None` for any other line.
pub fn parse_content_length(line: &[u8]) -> (r: Option<usize>)
    ensures
        match r {
            Some(n) => is_length_header(line@) && header_value(line@) == n,
            None => !is_length_header(line@) || header_value(line@) > usize::MAX,
        },
{
    let prefix: [u8; 16] = [67, 111, 110, 116, 101, 110, 116, 45, 76, 101, 110, 103, 116, 104, 58, 32];
    proof {
        assert(prefix@ =~= length_prefix());
    }
    if line.len() <= 16 {
        return None;
    }
    let mut i: usize = 0;
    while i < 16
        invariant
            i <= 16,
            line@.len() > 16,
            prefix@ == length_prefix(),
            forall|j: int| 0 <= j < i ==> line@[j] == prefix@[j],
        decreases 16 - i,
    {
        if line[i] != prefix[i] {
            proof {
                assert(line@.take(16)[i as int] != length_prefix()[i as int]);
            }
            return None;
        }
        i = i + 1;
    }
    proof {
        assert(line@.take(16) =~= length_prefix());
    }
    let ghost digits = line@.skip(16);
    let mut value: usize = 0;
    let mut k: usize = 16;
    while k < line.len()
        invariant
            16 <= k <= line@.len(),
            digits == line@.skip(16),
            line@.take(16) == length_prefix(),
            forall|j: int| 16 <= j < k ==> is_digit(#[trigger] line@[j]),
            value == decimal_value(digits.take(k - 16)),
        decreases line@.len() - k,
    {
        let b = line[k];
        if b < 48 || b > 57 {
            return None;
        }
        let d = (b - 48) as usize;
        proof {
            assert(digits.take(k + 1 - 16).drop_last() =~= digits.take(k - 16));
        }
        if value > (usize::MAX - d) / 10 {
            proof {
                if forall|j: int| 0 <= j < digits.len() ==> is_digit(#[trigger] digits[j]) {
                    lemma_decimal_grows(digits, k + 1 - 16);
                }
                assert(is_length_header(line@) ==> forall|j: int|
                    0 <= j < digits.len() ==> is_digit(#[trigger] digits[j])) by {
                    if is_length_header(line@) {
                        assert forall|j: int| 0 <= j < digits.len() implies is_digit(
                            #[trigger] digits[j],
                        ) by {
                            assert(digits[j] == line@[16 + j]);
                        }
                    }
                }
            }
            return None;
        }
        value = value * 10 + d;
        k = k + 1;
    }
    proof {
        assert(digits.take(k - 16) =~= digits);
    }
    Some(value)
}

} // verus!

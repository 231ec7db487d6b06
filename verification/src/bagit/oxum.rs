//! The payload's octet and stream sum: how many bytes and how many files a bag carries.

use vstd::prelude::*;
use vstd::string::StringExecFns;

use crate::bagit::chars::{lemma_split_joined, split_at_first, split_once};
use crate::bagit::decimal::{
    decimal, is_digit, lemma_decimal_digits, lemma_parse_decimal, parse_decimal_u64, parse_u64,
    push_decimal,
};

verus! {

/// The size of a payload: the bytes of all its files together, and the number of files.
#[derive(Debug, Clone, Copy, PartialEq, Eq, Structural)]
pub struct PayloadOxum {
    pub octet_count: u64,
    pub file_count: u64,
}

/// The sizes of `sizes` added up.
pub open spec fn total_size(sizes: Seq<u64>) -> nat
    decreases sizes.len(),
{
    if sizes.len() == 0 {
        0
    } else {
        total_size(sizes.drop_last()) + sizes.last() as nat
    }
}

/// How a payload's size is written: bytes, a full stop, files, each in decimal.
pub open spec fn oxum_text(oxum: PayloadOxum) -> Seq<char> {
    decimal(oxum.octet_count as nat).push('.') + decimal(oxum.file_count as nat)
}

/// What a text reads as: a payload's size, if it is two decimal numerals that fit 64 bits
/// with the text's first full stop between them.
pub open spec fn parse_oxum(text: Seq<char>) -> Option<PayloadOxum> {
    match split_at_first(text, '.') {
        Some((octets, files)) => match (parse_decimal_u64(octets), parse_decimal_u64(files)) {
            (Some(octet_count), Some(file_count)) => Some(PayloadOxum { octet_count, file_count }),
            _ => None,
        },
        None => None,
    }
}

/// The size of a payload whose files have the sizes `sizes`, if 64 bits hold it.
pub open spec fn oxum_of_sizes(sizes: Seq<u64>) -> Option<PayloadOxum> {
    if total_size(sizes) <= u64::MAX && sizes.len() <= u64::MAX {
        Some(PayloadOxum { octet_count: total_size(sizes) as u64, file_count: sizes.len() as u64 })
    } else {
        None
    }
}

/// The total of a part of the sizes never exceeds the total of all.
pub proof fn lemma_total_size_prefix(sizes: Seq<u64>, k: int)
    requires
        0 <= k <= sizes.len(),
    ensures
        total_size(sizes.take(k)) <= total_size(sizes),
    decreases sizes.len(),
{
    if k == sizes.len() {
        assert(sizes.take(k) =~= sizes);
    } else {
        lemma_total_size_prefix(sizes.drop_last(), k);
        assert(sizes.drop_last().take(k) =~= sizes.take(k));
    }
}

/// Reading what a payload's size is written as gives the size back.
pub proof fn lemma_parse_oxum_text(oxum: PayloadOxum)
    ensures
        parse_oxum(oxum_text(oxum)) == Some(oxum),
{
    let octets = decimal(oxum.octet_count as nat);
    lemma_decimal_digits(oxum.octet_count as nat);
    lemma_parse_decimal(oxum.octet_count as nat);
    lemma_parse_decimal(oxum.file_count as nat);
    assert(!octets.contains('.')) by {
        if octets.contains('.') {
            let i = choose|i: int| 0 <= i < octets.len() && octets[i] == '.';
            assert(is_digit(octets[i]));
        }
    }
    lemma_split_joined(octets, '.', decimal(oxum.file_count as nat));
}

impl PayloadOxum {
    pub fn new(octet_count: u64, file_count: u64) -> (oxum: PayloadOxum)
        ensures
            oxum == (PayloadOxum { octet_count, file_count }),
    {
        PayloadOxum { octet_count, file_count }
    }

    /// Adds up the sizes of a payload's files, one size per file.
    pub fn of_sizes(sizes: &Vec<u64>) -> (r: Option<PayloadOxum>)
        ensures
            r == oxum_of_sizes(sizes@),
    {
        let mut octet_count: u64 = 0;
        let mut i: usize = 0;
        while i < sizes.len()
            invariant
                i <= sizes.len(),
                octet_count == total_size(sizes@.take(i as int)),
            decreases sizes.len() - i,
        {
            proof {
                assert(sizes@.take(i + 1).drop_last() =~= sizes@.take(i as int));
                lemma_total_size_prefix(sizes@, i + 1);
            }
            octet_count = match octet_count.checked_add(sizes[i]) {
                Some(sum) => sum,
                None => {
                    return None;
                },
            };
            i = i + 1;
        }
        assert(sizes@.take(i as int) =~= sizes@);
        Some(PayloadOxum { octet_count, file_count: i as u64 })
    }

    /// Reads a payload's size written as `<bytes>.<files>`.
    pub fn parse(text: &str) -> (r: Option<PayloadOxum>)
        ensures
            r == parse_oxum(text@),
    {
        if let Some((octets, files)) = split_once(text, '.') {
            match (parse_u64(octets), parse_u64(files)) {
                (Some(octet_count), Some(file_count)) => Some(
                    PayloadOxum { octet_count, file_count },
                ),
                _ => None,
            }
        } else {
            None
        }
    }

    /// The value of the `Payload-Oxum` tag, such as `1234.2`.
    pub fn to_string(&self) -> (text: String)
        ensures
            text@ == oxum_text(*self),
    {
        let mut text = String::new();
        push_decimal(&mut text, self.octet_count);
        proof {
            reveal_strlit(".");
            assert("."@ =~= seq!['.']);
        }
        text.append(".");
        push_decimal(&mut text, self.file_count);
        assert(text@ =~= oxum_text(*self));
        text
    }
}

} // verus!

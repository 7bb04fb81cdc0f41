//! Reading record lengths out of FASTA text.

use vstd::prelude::*;

verus! {

/// `std::io::Error`, the error of the FASTA reader. Nothing is known of
/// what it holds.
#[verifier::external_type_specification]
#[verifier::external_body]
pub struct ExIoError(std::io::Error);

/// The record lengths that the FASTA reader of the `bio` crate finds in
/// `bytes`, or `None` where it rejects them.
pub uninterp spec fn fasta_record_lengths(bytes: Seq<u8>) -> Option<Seq<usize>>;

/// Runs `bio::io::fasta::Reader::new(bytes).records()` to its end and hands
/// out the length of `Record::seq()` for each record, in file order.
///
/// Trusted: the reader works on the bytes alone, so its verdict is a function
/// of them; that function is what `fasta_record_lengths` names. The error
/// is the reader's own and is passed through untouched.
#[verifier::external_body]
pub(crate) fn read_record_lengths(bytes: &[u8]) -> (outcome: Result<Vec<usize>, std::io::Error>)
    ensures
        match outcome {
            Ok(lengths) => fasta_record_lengths(bytes@) == Some(lengths@),
            Err(_) => fasta_record_lengths(bytes@) is None,
        },
{
    bio::io::fasta::Reader::new(bytes).records().map(|record| record.map(|r| r.seq().len())).collect()
}

/// The lengths of the records in `bytes`, or `None` where the content is
/// not well-formed FASTA.
pub fn record_lengths(bytes: &[u8]) -> (lengths: Option<Vec<usize>>)
    ensures
        lengths is Some <==> fasta_record_lengths(bytes@) is Some,
        lengths matches Some(found) ==> fasta_record_lengths(bytes@) == Some(found@),
{
    match read_record_lengths(bytes) {
        Ok(found) => Some(found),
        Err(_) => None,
    }
}

} // verus!
